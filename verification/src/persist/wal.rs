//! The write-ahead log: frames, replay, and the decisions of the flusher.
//!
//! A frame, all integers with the least significant byte first: magic (4
//! bytes), the length of all that follows (4), logical time (8), cell id (8),
//! operation (1), schema version (1), flags (2), payload, and a CRC-32C (4)
//! over everything between the magic and itself.

use vstd::prelude::*;
use crate::bytes::{
    le_bytes, le_int, lemma_le_round_trip, lemma_pow256, push_all, push_le, read_le, slice_of,
};
use crate::digest::{crc32c, crc_of};
use crate::text::{
    cat2, cat3, cat4, chars_between, chars_of, dec_text, ends, parse_u64, starts, str_ends,
    str_starts, string_of, u64_of, u64_text, padded, padded_text,
};
use crate::vocab::{fnv1a64, fnv_of};

verus! {

/// The first bytes of a frame.
pub const WAL_MAGIC: u32 = 0x5741_4C46;

/// An epoch ends when its file has grown to this.
pub const EPOCH_ROLL_BYTES: u64 = 1_073_741_824;

/// The group-commit window, in microseconds.
pub const GROUP_COMMIT_WINDOW_US: u64 = 250;

/// A group commit waits for no more frames once this much is buffered.
pub const GROUP_COMMIT_BYTES: usize = 262_144;

/// Bit 0 of the flags: the frame belongs to the cross-check stream.
pub const FLAG_CROSS_CHECK: u16 = 1;

/// The largest frame length that replay believes.
pub const MAX_FRAME_LEN: u64 = 67_108_888;

/// The flags mark a frame of the cross-check stream.
pub open spec fn is_cross_check(flags: u16) -> bool {
    flags % 2 == 1
}

/// What a frame's payload is sealed for.
pub open spec fn purpose_of(cell_id: u64, flags: u16) -> Seq<char> {
    if is_cross_check(flags) {
        "wal.cross_check"@
    } else {
        "wal.cell."@ + dec_text(cell_id as nat)
    }
}

pub fn payload_purpose(cell_id: u64, flags: u16) -> (r: String)
    ensures
        r@ == purpose_of(cell_id, flags),
{
    if flags % 2 == 1 {
        "wal.cross_check".to_owned()
    } else {
        cat2("wal.cell.", u64_text(cell_id).as_str())
    }
}

/// What is done in a frame.
#[derive(Clone, Copy, Debug, PartialEq, Eq, Structural)]
pub enum WalOp {
    Write,
    Supersede,
    QuarantineAbsorb,
    QuarantineResolve,
    Decision,
    CuratorOutput,
    CrossCheck,
    AdminOp,
    Checkpoint,
}

impl WalOp {
    /// The byte that stands for the operation.
    pub open spec fn code(self) -> u8 {
        match self {
            WalOp::Write => 1,
            WalOp::Supersede => 2,
            WalOp::QuarantineAbsorb => 3,
            WalOp::QuarantineResolve => 4,
            WalOp::Decision => 5,
            WalOp::CuratorOutput => 6,
            WalOp::CrossCheck => 7,
            WalOp::AdminOp => 8,
            WalOp::Checkpoint => 9,
        }
    }

    pub fn as_u8(self) -> (r: u8)
        ensures
            r == self.code(),
    {
        match self {
            WalOp::Write => 1,
            WalOp::Supersede => 2,
            WalOp::QuarantineAbsorb => 3,
            WalOp::QuarantineResolve => 4,
            WalOp::Decision => 5,
            WalOp::CuratorOutput => 6,
            WalOp::CrossCheck => 7,
            WalOp::AdminOp => 8,
            WalOp::Checkpoint => 9,
        }
    }

    pub fn from_u8(v: u8) -> (r: Option<WalOp>)
        ensures
            match r {
                Some(op) => op.code() == v,
                None => v == 0 || v > 9,
            },
    {
        match v {
            1 => Some(WalOp::Write),
            2 => Some(WalOp::Supersede),
            3 => Some(WalOp::QuarantineAbsorb),
            4 => Some(WalOp::QuarantineResolve),
            5 => Some(WalOp::Decision),
            6 => Some(WalOp::CuratorOutput),
            7 => Some(WalOp::CrossCheck),
            8 => Some(WalOp::AdminOp),
            9 => Some(WalOp::Checkpoint),
            _ => None,
        }
    }
}

/// The bytes that a nonce seed is hashed from.
pub open spec fn nonce_input(logical_at: u64, cell_id: u64, op: WalOp, payload: Seq<u8>) -> Seq<u8> {
    le_bytes(logical_at as nat, 8) + le_bytes(cell_id as nat, 8) + seq![op.code()] + payload
}

/// A nonce seed: the same on replay, and of the whole frame.
pub fn payload_nonce(logical_at: u64, cell_id: u64, op: WalOp, payload: &[u8]) -> (r: u64)
    ensures
        r == fnv_of(nonce_input(logical_at, cell_id, op, payload@)),
{
    let mut seed: Vec<u8> = Vec::new();
    push_le(&mut seed, logical_at, 8);
    push_le(&mut seed, cell_id, 8);
    seed.push(op.as_u8());
    push_all(&mut seed, payload);
    assert(seed@ =~= nonce_input(logical_at, cell_id, op, payload@));
    fnv1a64(seed.as_slice())
}

/// A frame.
#[derive(Debug)]
pub struct WalFrame {
    pub logical_at: u64,
    pub cell_id: u64,
    pub op: WalOp,
    pub schema_ver: u8,
    pub flags: u16,
    pub payload: Vec<u8>,
}

/// A frame as a mathematical object.
#[verifier::ext_equal]
pub struct FrameV {
    pub logical_at: u64,
    pub cell_id: u64,
    pub op: WalOp,
    pub schema_ver: u8,
    pub flags: u16,
    pub payload: Seq<u8>,
}

impl View for WalFrame {
    type V = FrameV;

    open spec fn view(&self) -> FrameV {
        FrameV {
            logical_at: self.logical_at,
            cell_id: self.cell_id,
            op: self.op,
            schema_ver: self.schema_ver,
            flags: self.flags,
            payload: self.payload@,
        }
    }
}

/// The fields and the payload.
pub open spec fn frame_body(f: FrameV) -> Seq<u8> {
    le_bytes(f.logical_at as nat, 8) + le_bytes(f.cell_id as nat, 8) + seq![f.op.code(), f.schema_ver]
        + le_bytes(f.flags as nat, 2) + f.payload
}

/// The length field and the body: what the CRC covers.
pub open spec fn frame_covered(f: FrameV) -> Seq<u8> {
    le_bytes(f.payload.len() + 24, 4) + frame_body(f)
}

/// The bytes of a frame.
#[verifier::opaque]
pub open spec fn frame_bytes(f: FrameV) -> Seq<u8> {
    le_bytes(WAL_MAGIC as nat, 4) + frame_covered(f) + le_bytes(
        crc_of(frame_covered(f)) as nat,
        4,
    )
}

proof fn lemma_le_len(v: nat, n: nat)
    ensures
        le_bytes(v, n).len() == n,
    decreases n,
{
    if n > 0 {
        lemma_le_len(v / 256, (n - 1) as nat);
    }
}

proof fn lemma_le_low(v: nat, w: nat, n: nat)
    requires
        w == v % crate::bytes::pow256(n),
    ensures
        le_bytes(v, n) == le_bytes(w, n),
    decreases n,
{
    if n > 0 {
        let p = crate::bytes::pow256((n - 1) as nat) as int;
        let x = v as int;
        crate::bytes::lemma_pow256_grows((n - 1) as nat, (n - 1) as nat);
        vstd::arithmetic::div_mod::lemma_mod_breakdown(x, 256, p);
        vstd::arithmetic::div_mod::lemma_fundamental_div_mod(x, 256);
        let q = (x / 256) % p;
        assert(x % (256 * p) == 256 * q + x % 256);
        lemma_le_low(v / 256, w / 256, (n - 1) as nat);
    }
}

impl WalFrame {
    /// The bytes of the frame.
    pub fn to_bytes(&self) -> (r: Vec<u8>)
        ensures
            r@ == frame_bytes(self@),
    {
        let n: u64 = (self.payload.len() as u64).wrapping_add(24) % 0x1_0000_0000;
        let mut covered: Vec<u8> = Vec::new();
        push_le(&mut covered, n, 4);
        proof {
            lemma_pow256();
            lemma_le_low(self.payload@.len() + 24, n as nat, 4);
        }
        push_le(&mut covered, self.logical_at, 8);
        push_le(&mut covered, self.cell_id, 8);
        covered.push(self.op.as_u8());
        covered.push(self.schema_ver);
        push_le(&mut covered, self.flags as u64, 2);
        push_all(&mut covered, self.payload.as_slice());
        assert(covered@ =~= frame_covered(self@));
        let crc: u32 = crc32c(covered.as_slice());
        let mut out: Vec<u8> = Vec::new();
        push_le(&mut out, WAL_MAGIC as u64, 4);
        push_all(&mut out, covered.as_slice());
        push_le(&mut out, crc as u64, 4);
        proof {
            reveal(frame_bytes);
        }
        assert(out@ =~= frame_bytes(self@));
        out
    }
}

/// The operation with this code.
pub open spec fn op_of(v: u8) -> Option<WalOp> {
    if v == 0 || v > 9 {
        None
    } else {
        Some(choose|op: WalOp| op.code() == v)
    }
}

/// The first frame of some bytes, with its length; or why there is none.
#[verifier::opaque]
pub open spec fn parse_frame(b: Seq<u8>) -> Result<(FrameV, int), Seq<char>> {
    if b.len() < 8 {
        Err("short header"@)
    } else if le_int(b.subrange(0, 4)) != WAL_MAGIC {
        Err("bad magic"@)
    } else {
        let n = le_int(b.subrange(4, 8)) as int;
        if n < 24 || n > MAX_FRAME_LEN {
            Err("implausible frame_len"@)
        } else if b.len() < 8 + n {
            Err("torn frame"@)
        } else if crc_of(b.subrange(4, 4 + n)) != le_int(b.subrange(4 + n, 8 + n)) {
            Err("crc mismatch"@)
        } else {
            match op_of(b[24]) {
                None => Err("unknown op"@),
                Some(op) => Ok(
                    (
                        FrameV {
                            logical_at: le_int(b.subrange(8, 16)) as u64,
                            cell_id: le_int(b.subrange(16, 24)) as u64,
                            op,
                            schema_ver: b[25],
                            flags: le_int(b.subrange(26, 28)) as u16,
                            payload: b.subrange(28, 4 + n),
                        },
                        8 + n,
                    ),
                ),
            }
        }
    }
}

proof fn lemma_op_of(op: WalOp)
    ensures
        op_of(op.code()) == Some(op),
{
    let x = choose|x: WalOp| x.code() == op.code();
    assert(op.code() == op.code());
    assert(x == op);
}

fn read_frame(b: &[u8], pos: usize) -> (r: Result<(WalFrame, usize), String>)
    requires
        pos <= b@.len(),
    ensures
        match (r, parse_frame(b@.skip(pos as int))) {
            (Ok((f, k)), Ok((g, n))) => f@ == g && k == n && pos + k <= b@.len() && k > 0,
            (Err(e), Err(m)) => e@ == m,
            _ => false,
        },
{
    proof {
        reveal(parse_frame);
    }
    let ghost t = b@.skip(pos as int);
    let left: usize = b.len() - pos;
    if left < 8 {
        return Err("short header".to_owned());
    }
    let magic: u64 = read_le(b, pos, 4);
    assert(t.subrange(0, 4) =~= b@.subrange(pos as int, pos + 4));
    if magic != WAL_MAGIC as u64 {
        return Err("bad magic".to_owned());
    }
    let n: u64 = read_le(b, pos + 4, 4);
    assert(t.subrange(4, 8) =~= b@.subrange(pos + 4, pos + 8));
    if n < 24 || n > MAX_FRAME_LEN {
        return Err("implausible frame_len".to_owned());
    }
    if n > (left - 8) as u64 {
        return Err("torn frame".to_owned());
    }
    let k: usize = n as usize;
    let covered = slice_of(b, pos + 4, pos + 4 + k);
    assert(covered@ =~= t.subrange(4, 4 + n));
    let stored: u64 = read_le(b, pos + 4 + k, 4);
    assert(t.subrange(4 + n, 8 + n) =~= b@.subrange(pos + 4 + k, pos + 8 + k));
    if crc32c(covered.as_slice()) as u64 != stored {
        return Err("crc mismatch".to_owned());
    }
    let logical_at: u64 = read_le(b, pos + 8, 8);
    assert(t.subrange(8, 16) =~= b@.subrange(pos + 8, pos + 16));
    let cell_id: u64 = read_le(b, pos + 16, 8);
    assert(t.subrange(16, 24) =~= b@.subrange(pos + 16, pos + 24));
    let op = match WalOp::from_u8(b[pos + 24]) {
        Some(op) => op,
        None => {
            return Err("unknown op".to_owned());
        },
    };
    proof {
        lemma_op_of(op);
    }
    let schema_ver: u8 = b[pos + 25];
    let flags64: u64 = read_le(b, pos + 26, 2);
    proof {
        assert(t.subrange(26, 28) =~= b@.subrange(pos + 26, pos + 28));
        crate::bytes::lemma_le_bound(t.subrange(26, 28));
        lemma_pow256();
    }
    let payload = slice_of(b, pos + 28, pos + 4 + k);
    assert(payload@ =~= t.subrange(28, 4 + n));
    Ok((WalFrame { logical_at, cell_id, op, schema_ver, flags: flags64 as u16, payload }, 8 + k))
}

/// What a log file holds: its frames up to the first place that cannot be
/// read, and a note on that place.
pub open spec fn replay_of(b: Seq<u8>, pos: int) -> (Seq<FrameV>, Option<Seq<char>>)
    decreases b.len() - pos,
{
    if pos >= b.len() {
        (Seq::empty(), None)
    } else {
        match parse_frame(b.skip(pos)) {
            Err(e) => (Seq::empty(), Some(e + " at offset "@ + dec_text(pos as nat))),
            Ok((f, k)) => if k <= 0 || pos + k > b.len() {
                (Seq::empty(), None)
            } else {
                let (fs, t) = replay_of(b, pos + k);
                (seq![f] + fs, t)
            },
        }
    }
}

/// The frames of a log, in order, and the note on a torn tail.
#[derive(Debug)]
pub struct ReplayOutcome {
    pub frames: Vec<WalFrame>,
    pub torn_tail: Option<String>,
}

/// The frames of a list.
pub open spec fn frame_views(fs: Seq<WalFrame>) -> Seq<FrameV> {
    Seq::new(fs.len(), |i: int| fs[i]@)
}

/// Replays the bytes of one log file.
pub fn replay_bytes(b: &[u8]) -> (r: ReplayOutcome)
    ensures
        frame_views(r.frames@) == replay_of(b@, 0).0,
        r.torn_tail.deep_view() == replay_of(b@, 0).1,
{
    let mut frames: Vec<WalFrame> = Vec::new();
    let mut pos: usize = 0;
    let ghost all = replay_of(b@, 0);
    assert(frame_views(frames@) + all.0 =~= all.0);
    while pos < b.len()
        invariant
            pos <= b@.len(),
            all == replay_of(b@, 0),
            all.0 == frame_views(frames@) + replay_of(b@, pos as int).0,
            all.1 == replay_of(b@, pos as int).1,
        decreases b.len() - pos,
    {
        let ghost before = frame_views(frames@);
        match read_frame(b, pos) {
            Ok((f, k)) => {
                let ghost rest = replay_of(b@, pos + k).0;
                frames.push(f);
                assert(frame_views(frames@) =~= before.push(f@));
                assert(before + (seq![f@] + rest) =~= frame_views(frames@) + rest);
                pos += k;
            },
            Err(e) => {
                let note = cat3(e.as_str(), " at offset ", u64_text(pos as u64).as_str());
                assert(before + Seq::<FrameV>::empty() =~= before);
                return ReplayOutcome { frames, torn_tail: Some(note) };
            },
        }
    }
    assert(frame_views(frames@) + Seq::<FrameV>::empty() =~= frame_views(frames@));
    ReplayOutcome { frames, torn_tail: None }
}

/// The log files of a stream.
pub open spec fn epoch_views(s: Seq<(u64, Vec<u8>)>) -> Seq<(u64, Seq<u8>)> {
    Seq::new(s.len(), |i: int| (s[i].0, s[i].1@))
}

/// What the first `n` files of a stream hold together. Only the last file of
/// the stream may have a torn tail.
pub open spec fn stream_of(files: Seq<(u64, Seq<u8>)>, n: nat) -> Result<
    (Seq<FrameV>, Option<Seq<char>>),
    Seq<char>,
>
    decreases n,
{
    if n == 0 {
        Ok((Seq::empty(), None))
    } else {
        match stream_of(files, (n - 1) as nat) {
            Err(e) => Err(e),
            Ok((fs, _)) => {
                let (gs, t) = replay_of(files[n - 1].1, 0);
                if t is Some && n < files.len() {
                    Err(
                        "wal corruption in non-final epoch "@ + dec_text(files[n - 1].0 as nat)
                            + ": "@ + t->0,
                    )
                } else {
                    Ok((fs + gs, t))
                }
            },
        }
    }
}

proof fn lemma_stream_error(files: Seq<(u64, Seq<u8>)>, k: nat, n: nat)
    requires
        k <= n,
        stream_of(files, k) is Err,
    ensures
        stream_of(files, n) == stream_of(files, k),
    decreases n,
{
    if k < n {
        lemma_stream_error(files, k, (n - 1) as nat);
    }
}

/// Replays the files of a stream, given in epoch order.
pub fn replay_epochs(files: &Vec<(u64, Vec<u8>)>) -> (r: Result<ReplayOutcome, String>)
    ensures
        match (r, stream_of(epoch_views(files@), files@.len())) {
            (Ok(o), Ok((fs, t))) => frame_views(o.frames@) == fs && o.torn_tail.deep_view() == t,
            (Err(a), Err(b)) => a@ == b,
            _ => false,
        },
{
    let ghost fv = epoch_views(files@);
    let mut frames: Vec<WalFrame> = Vec::new();
    let mut torn_tail: Option<String> = None;
    let mut i: usize = 0;
    assert(frame_views(frames@) =~= Seq::<FrameV>::empty());
    while i < files.len()
        invariant
            i <= files@.len(),
            fv == epoch_views(files@),
            stream_of(fv, i as nat) == Ok::<_, Seq<char>>(
                (frame_views(frames@), torn_tail.deep_view()),
            ),
            i < files@.len() ==> torn_tail is None,
        decreases files.len() - i,
    {
        let ghost before = frame_views(frames@);
        assert(fv[i as int] == (files@[i as int].0, files@[i as int].1@));
        let outcome = replay_bytes(files[i].1.as_slice());
        let ghost got = frame_views(outcome.frames@);
        let ReplayOutcome { frames: more, torn_tail: torn } = outcome;
        let mut more = more;
        frames.append(&mut more);
        assert(frame_views(frames@) =~= before + got);
        if let Some(t) = &torn {
            if i != files.len() - 1 {
                let m = cat4(
                    "wal corruption in non-final epoch ",
                    u64_text(files[i].0).as_str(),
                    ": ",
                    t.as_str(),
                );
                proof {
                    lemma_stream_error(fv, (i + 1) as nat, fv.len());
                }
                return Err(m);
            }
        }
        torn_tail = torn;
        i += 1;
    }
    Ok(ReplayOutcome { frames, torn_tail })
}

/// The bytes of frames, one after the other.
pub open spec fn frames_bytes(fs: Seq<FrameV>) -> Seq<u8>
    decreases fs.len(),
{
    if fs.len() == 0 {
        Seq::empty()
    } else {
        frame_bytes(fs[0]) + frames_bytes(fs.skip(1))
    }
}

/// The payload is one that replay believes.
pub open spec fn plausible(f: FrameV) -> bool {
    f.payload.len() + 24 <= MAX_FRAME_LEN
}

/// A frame is read back from its bytes, whatever follows them.
pub proof fn lemma_frame_round_trip(f: FrameV, t: Seq<u8>)
    requires
        plausible(f),
    ensures
        parse_frame(frame_bytes(f) + t) == Ok::<_, Seq<char>>((f, frame_bytes(f).len() as int)),
        frame_bytes(f).len() == f.payload.len() + 32,
{
    reveal(frame_bytes);
    reveal(parse_frame);
    lemma_pow256();
    let n = f.payload.len() + 24;
    let body = frame_body(f);
    let covered = frame_covered(f);
    let crc = crc_of(covered) as nat;
    lemma_le_round_trip(WAL_MAGIC as nat, 4);
    lemma_le_round_trip(n, 4);
    lemma_le_round_trip(f.logical_at as nat, 8);
    lemma_le_round_trip(f.cell_id as nat, 8);
    lemma_le_round_trip(f.flags as nat, 2);
    lemma_le_round_trip(crc, 4);
    let b = frame_bytes(f) + t;
    assert(body.len() == 20 + f.payload.len());
    assert(covered.len() == n);
    assert(b.subrange(0, 4) =~= le_bytes(WAL_MAGIC as nat, 4));
    assert(b.subrange(4, 8) =~= le_bytes(n, 4));
    assert(b.subrange(4, 4 + n as int) =~= covered);
    assert(b.subrange(4 + n as int, 8 + n as int) =~= le_bytes(crc, 4));
    assert(b.subrange(8, 16) =~= le_bytes(f.logical_at as nat, 8));
    assert(b.subrange(16, 24) =~= le_bytes(f.cell_id as nat, 8));
    assert(b[24] == f.op.code());
    assert(b[25] == f.schema_ver);
    assert(b.subrange(26, 28) =~= le_bytes(f.flags as nat, 2));
    assert(b.subrange(28, 4 + n as int) =~= f.payload);
    lemma_op_of(f.op);
}

proof fn lemma_replay_first(f: FrameV, tail: Seq<u8>, done: Seq<u8>)
    requires
        plausible(f),
    ensures
        ({
            let b = done + frame_bytes(f) + tail;
            let next = replay_of(b, (done.len() + frame_bytes(f).len()) as int);
            replay_of(b, done.len() as int) == (seq![f] + next.0, next.1)
        }),
{
    let b = done + frame_bytes(f) + tail;
    lemma_frame_round_trip(f, tail);
    assert(b.skip(done.len() as int) =~= frame_bytes(f) + tail);
}

/// Replaying what was written gives the frames back in order; what follows
/// them is judged by itself, so a torn tail loses none of them.
pub proof fn lemma_replay_written(fs: Seq<FrameV>, tail: Seq<u8>, done: Seq<u8>)
    requires
        forall|i: int| 0 <= i < fs.len() ==> plausible(#[trigger] fs[i]),
    ensures
        ({
            let b = done + frames_bytes(fs) + tail;
            let at = (done.len() + frames_bytes(fs).len()) as int;
            &&& replay_of(b, done.len() as int).0 == fs + replay_of(b, at).0
            &&& replay_of(b, done.len() as int).1 == replay_of(b, at).1
        }),
    decreases fs.len(),
{
    let b = done + frames_bytes(fs) + tail;
    if fs.len() == 0 {
        assert(fs + replay_of(b, done.len() as int).0 =~= replay_of(b, done.len() as int).0);
    } else {
        let f = fs[0];
        let rest = fs.skip(1);
        assert forall|i: int| 0 <= i < rest.len() implies plausible(#[trigger] rest[i]) by {
            assert(rest[i] == fs[i + 1]);
        }
        lemma_replay_written(rest, tail, done + frame_bytes(f));
        lemma_replay_first(f, frames_bytes(rest) + tail, done);
        assert(b =~= (done + frame_bytes(f)) + frames_bytes(rest) + tail);
        assert(b =~= done + frame_bytes(f) + (frames_bytes(rest) + tail));
        let at = (done.len() + frames_bytes(fs).len()) as int;
        assert(fs =~= seq![f] + rest);
        assert(seq![f] + (rest + replay_of(b, at).0) =~= fs + replay_of(b, at).0);
    }
}

/// A log of whole frames replays to exactly them, without a torn tail.
pub proof fn lemma_replay_whole(fs: Seq<FrameV>)
    requires
        forall|i: int| 0 <= i < fs.len() ==> plausible(#[trigger] fs[i]),
    ensures
        replay_of(frames_bytes(fs), 0) == (fs, None::<Seq<char>>),
{
    lemma_replay_written(fs, Seq::empty(), Seq::empty());
    let b = Seq::<u8>::empty() + frames_bytes(fs) + Seq::<u8>::empty();
    assert(b =~= frames_bytes(fs));
    assert(fs + Seq::<FrameV>::empty() =~= fs);
}

/// The number of an epoch file, by its name.
pub open spec fn epoch_of(name: Seq<char>) -> Option<u64> {
    if starts(name, "epoch-"@) && ends(name.skip(6), ".wal"@) {
        u64_of(name.subrange(6, name.len() - 4))
    } else {
        None
    }
}

/// The number of an epoch file, by its name.
pub fn epoch_number(name: &str) -> (r: Option<u64>)
    ensures
        r == epoch_of(name@),
{
    proof {
        reveal_strlit("epoch-");
        reveal_strlit(".wal");
    }
    if !str_starts(name, "epoch-") {
        return None;
    }
    let c = chars_of(name);
    let rest = string_of(chars_between(c.as_slice(), 6, c.len()).as_slice());
    assert(rest@ =~= name@.skip(6));
    if !str_ends(rest.as_str(), ".wal") {
        return None;
    }
    let digits = string_of(chars_between(c.as_slice(), 6, c.len() - 4).as_slice());
    parse_u64(digits.as_str())
}

/// The name of an epoch file.
pub fn epoch_name(epoch: u64) -> (r: String)
    ensures
        r@ == "epoch-"@ + padded(epoch as nat, 8) + ".wal"@,
{
    cat3("epoch-", padded_text(epoch, 8).as_str(), ".wal")
}

/// The numbers among some, each as often as it stands there, in ascending
/// order.
pub open spec fn sorted_as(r: Seq<u64>, of: Seq<u64>) -> bool {
    &&& r.to_multiset() == of.to_multiset()
    &&& forall|i: int, j: int| 0 <= i < j < r.len() ==> #[trigger] r[i] <= #[trigger] r[j]
}

/// The epoch numbers among file names, in the order of the names.
pub open spec fn epochs_of(names: Seq<Seq<char>>) -> Seq<u64>
    decreases names.len(),
{
    if names.len() == 0 {
        Seq::empty()
    } else {
        let before = epochs_of(names.drop_last());
        match epoch_of(names.last()) {
            Some(e) => before.push(e),
            None => before,
        }
    }
}

/// The epochs of a stream, by the names of its files, in ascending order.
pub fn epoch_order(names: &Vec<String>) -> (r: Vec<u64>)
    ensures
        sorted_as(r@, epochs_of(crate::cbor::text_views(names@))),
{
    let ghost nv = crate::cbor::text_views(names@);
    let mut out: Vec<u64> = Vec::new();
    let mut i: usize = 0;
    while i < names.len()
        invariant
            i <= names@.len(),
            nv == crate::cbor::text_views(names@),
            sorted_as(out@, epochs_of(nv.take(i as int))),
        decreases names.len() - i,
    {
        assert(nv.take(i + 1).drop_last() =~= nv.take(i as int));
        assert(nv.take(i + 1).last() == names@[i as int]@);
        if let Some(e) = epoch_number(names[i].as_str()) {
            let mut p: usize = out.len();
            let ghost before = out@;
            let ghost base = epochs_of(nv.take(i as int));
            while p > 0 && out[p - 1] > e
                invariant
                    p <= out@.len(),
                    forall|j: int| p <= j < out@.len() ==> #[trigger] out@[j] > e,
                decreases p,
            {
                p -= 1;
            }
            out.insert(p, e);
            proof {
                before.to_multiset_ensures();
                base.to_multiset_ensures();
                vstd::seq_lib::to_multiset_insert(before, p as int, e);
                assert(out@.to_multiset() =~= base.push(e).to_multiset());
                assert forall|a: int, b: int| 0 <= a < b < out@.len() implies #[trigger] out@[a] <= #[trigger] out@[b] by {
                    if a < p && b > p {
                        assert(before[a] <= before[b - 1]);
                    } else if b == p {
                        if a < p - 1 {
                            assert(before[a] <= before[p - 1]);
                        }
                    } else if a == p {
                        assert(before[b - 1] > e);
                    } else if a > p {
                        assert(before[a - 1] <= before[b - 1]);
                    } else {
                        assert(before[a] <= before[b]);
                    }
                }
            }
        }
        i += 1;
    }
    assert(nv.take(nv.len() as int) =~= nv);
    out
}

/// Where a frame ends in the log.
#[derive(Clone, Copy, Debug, PartialEq, Eq, Structural)]
pub struct WalPos {
    pub epoch: u64,
    pub offset: u64,
}

/// What the flusher of a stream knows: where the log ends, what is buffered,
/// and where each waiting writer's frame will end.
#[verifier::ext_equal]
pub struct FlusherV {
    pub epoch: u64,
    pub offset: u64,
    pub buffered: Seq<u8>,
    pub waiting: Seq<u64>,
    pub stop: bool,
    pub force: bool,
}

impl FlusherV {
    /// Where the log will end once the buffer is written.
    pub open spec fn end(self) -> int {
        self.offset + self.buffered.len()
    }

    /// The next epoch, where this one is full.
    pub open spec fn rolled(self) -> FlusherV {
        if self.offset >= EPOCH_ROLL_BYTES {
            FlusherV { epoch: (self.epoch + 1) as u64, offset: 0, ..self }
        } else {
            self
        }
    }

    /// The state after the buffer was written (and perhaps not synced), with
    /// the writers answered.
    pub open spec fn committed(self) -> FlusherV {
        (FlusherV {
            offset: self.end() as u64,
            buffered: Seq::empty(),
            waiting: Seq::empty(),
            force: false,
            ..self
        }).rolled()
    }
}

/// After a commit nothing is buffered and nobody waits. The log ends where the buffer did,
/// in the same epoch; only one that is full gives way to the next, which begins empty.
pub proof fn lemma_committed(f: FlusherV)
    requires
        f.end() <= u64::MAX,
        f.epoch < u64::MAX,
    ensures
        ({
            let now = f.committed();
            &&& now.buffered.len() == 0 && now.waiting.len() == 0 && !now.force
            &&& now.stop == f.stop
            &&& f.offset + f.buffered.len() < EPOCH_ROLL_BYTES ==> now.epoch == f.epoch
                && now.offset == f.offset + f.buffered.len()
            &&& f.offset + f.buffered.len() >= EPOCH_ROLL_BYTES ==> now.epoch == f.epoch + 1
                && now.offset == 0
        }),
{
}

/// The flusher of a stream.
#[derive(Debug)]
pub struct Flusher {
    epoch: u64,
    offset: u64,
    buffered: Vec<u8>,
    waiting: Vec<u64>,
    stop: bool,
    force: bool,
}

impl View for Flusher {
    type V = FlusherV;

    closed spec fn view(&self) -> FlusherV {
        FlusherV {
            epoch: self.epoch,
            offset: self.offset,
            buffered: self.buffered@,
            waiting: self.waiting@,
            stop: self.stop,
            force: self.force,
        }
    }
}

impl Flusher {
    /// A flusher at the end of an epoch's file.
    pub fn new(epoch: u64, offset: u64) -> (r: Self)
        ensures
            r@ == (FlusherV {
                epoch,
                offset,
                buffered: Seq::empty(),
                waiting: Seq::empty(),
                stop: false,
                force: false,
            }),
    {
        Flusher {
            epoch,
            offset,
            buffered: Vec::new(),
            waiting: Vec::new(),
            stop: false,
            force: false,
        }
    }

    /// A writer hands in a frame and waits for it.
    pub fn take_frame(&mut self, bytes: &[u8])
        requires
            old(self)@.end() + bytes@.len() <= u64::MAX,
        ensures
            final(self)@ == (FlusherV {
                buffered: old(self)@.buffered + bytes@,
                waiting: old(self)@.waiting.push((old(self)@.end() + bytes@.len()) as u64),
                ..old(self)@
            }),
    {
        push_all(&mut self.buffered, bytes);
        let end: u64 = self.offset + self.buffered.len() as u64;
        self.waiting.push(end);
    }

    /// Someone waits until all that was handed in is durable.
    pub fn take_sync(&mut self)
        requires
            old(self)@.end() <= u64::MAX,
        ensures
            final(self)@ == (FlusherV {
                waiting: old(self)@.waiting.push(old(self)@.end() as u64),
                force: true,
                ..old(self)@
            }),
    {
        let end: u64 = self.offset + self.buffered.len() as u64;
        self.waiting.push(end);
        self.force = true;
    }

    /// The stream is to be closed.
    pub fn take_stop(&mut self)
        ensures
            final(self)@ == (FlusherV { stop: true, ..old(self)@ }),
    {
        self.stop = true;
    }

    /// Whether to wait for more frames before committing.
    pub fn gathers(&self) -> (r: bool)
        ensures
            r == (!self@.stop && !self@.force && self@.buffered.len() < GROUP_COMMIT_BYTES),
    {
        !self.stop && !self.force && self.buffered.len() < GROUP_COMMIT_BYTES
    }

    /// What has to be written now.
    pub fn pending(&self) -> (r: &[u8])
        ensures
            r@ == self@.buffered,
    {
        self.buffered.as_slice()
    }

    /// Whether the stream is to be closed after this commit.
    pub fn stopping(&self) -> (r: bool)
        ensures
            r == self@.stop,
    {
        self.stop
    }

    /// The epoch that is being written.
    pub fn epoch(&self) -> (r: u64)
        ensures
            r == self@.epoch,
    {
        self.epoch
    }

    /// The buffer is written: answers the writers with where their frames end
    /// and goes on to the next epoch where this one is full.
    pub fn commit(&mut self) -> (r: Vec<WalPos>)
        requires
            old(self)@.end() <= u64::MAX,
            old(self)@.epoch < u64::MAX,
        ensures
            final(self)@ == old(self)@.committed(),
            r@.len() == old(self)@.waiting.len(),
            forall|i: int|
                0 <= i < r@.len() ==> #[trigger] r@[i] == (WalPos {
                    epoch: old(self)@.epoch,
                    offset: old(self)@.waiting[i],
                }),
    {
        let mut out: Vec<WalPos> = Vec::new();
        let mut i: usize = 0;
        while i < self.waiting.len()
            invariant
                i <= self.waiting@.len(),
                out@.len() == i,
                self@ == old(self)@,
                forall|j: int|
                    0 <= j < i ==> #[trigger] out@[j] == (WalPos {
                        epoch: self@.epoch,
                        offset: self@.waiting[j],
                    }),
            decreases self.waiting.len() - i,
        {
            out.push(WalPos { epoch: self.epoch, offset: self.waiting[i] });
            i += 1;
        }
        self.offset = self.offset + self.buffered.len() as u64;
        self.buffered = Vec::new();
        self.waiting = Vec::new();
        self.force = false;
        if self.offset >= EPOCH_ROLL_BYTES {
            self.epoch = self.epoch + 1;
            self.offset = 0;
        }
        out
    }

    /// The write failed: the buffer is kept for the next commit, and the
    /// writers are told; returns how many.
    pub fn fail(&mut self) -> (r: usize)
        requires
            old(self)@.epoch < u64::MAX,
        ensures
            final(self)@ == (FlusherV {
                waiting: Seq::empty(),
                force: false,
                ..old(self)@
            }).rolled(),
            r == old(self)@.waiting.len(),
    {
        let n: usize = self.waiting.len();
        self.waiting = Vec::new();
        self.force = false;
        if self.offset >= EPOCH_ROLL_BYTES {
            self.epoch = self.epoch + 1;
            self.offset = 0;
        }
        n
    }
}

/// Each writer's frame ends where the log will end once it is written, and the
/// frames lie in the buffer in the order in which they were handed in.
pub proof fn lemma_frame_end(st: FlusherV, a: Seq<u8>, b: Seq<u8>)
    ensures
        ({
            let one = FlusherV {
                buffered: st.buffered + a,
                waiting: st.waiting.push((st.end() + a.len()) as u64),
                ..st
            };
            let two = FlusherV {
                buffered: one.buffered + b,
                waiting: one.waiting.push((one.end() + b.len()) as u64),
                ..one
            };
            &&& two.buffered == st.buffered + (a + b)
            &&& two.end() == st.end() + a.len() + b.len()
        }),
{
    assert(st.buffered + a + b =~= st.buffered + (a + b));
}

} // verus!
