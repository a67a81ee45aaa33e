//! The audit chain: every record carries the digest of the one before it.
//!
//! A line of the chain's file is the hex text of a record's bytes, a space, and
//! the hex text of their digest.

use vstd::prelude::*;
use crate::cbor::{lookup_from, map_value, Cbor, CborV};
use crate::codec::{enc, value_of};
use crate::codec_laws::{fits, lemma_bytes_back, lemma_canon_field, lemma_short_text, text_keys};
use crate::digest::{lemma_sha_len, sha256, sha_of};
use crate::hex::{
    hex, hex_digit, hex_text, hex_value, lemma_digit_replaced, lemma_hex_round_trip, unhex, unhex_of,
};
use crate::persist::kms::ct_eq;
use crate::text::{
    cat3, cat4, chars_between, chars_of, dec_text, find_chars, find_from, is_space, lemma_find,
    occurs_at, string_of, trim_text, trimmed, u64_text,
};

verus! {

/// A record of the chain.
pub open spec fn record_value(
    at: u64,
    event: Seq<char>,
    fields: CborV,
    prev: Seq<u8>,
    seq: u64,
) -> CborV {
    map_value(
        seq![
            ("event"@, CborV::Text(event)),
            ("fields"@, fields),
            ("logical_at"@, CborV::U64(at)),
            ("prev"@, CborV::Bytes(prev)),
            ("seq"@, CborV::U64(seq)),
        ],
    )
}

/// The line of a record's bytes.
pub open spec fn line_of(bytes: Seq<u8>) -> Seq<char> {
    hex_text(bytes) + " "@ + hex_text(sha_of(bytes))
}

/// A line's two parts: up to the first space, and behind it.
pub open spec fn parts_of(line: Seq<char>) -> (Seq<char>, Seq<char>) {
    match find_from(line, " "@, 0) {
        Some(i) => (line.take(i), line.skip(i + 1)),
        None => (line, Seq::empty()),
    }
}

/// What a line is to a chain that stands at `prev` and `seq`: an error, a break,
/// or the digest of its record.
pub open spec fn line_step(line: Seq<char>, number: nat, prev: Seq<u8>, seq: nat) -> Result<
    Option<Seq<u8>>,
    Seq<char>,
> {
    let (body_hex, hash_hex) = parts_of(line);
    match unhex_of(body_hex) {
        None => Err("audit line "@ + dec_text(number) + ": bad hex body"@),
        Some(body) => match unhex_of(hash_hex) {
            None => Err("audit line "@ + dec_text(number) + ": bad hex hash"@),
            Some(claimed) => if claimed != sha_of(body) {
                Ok(None)
            } else {
                match value_of(body) {
                    Err(e) => Err(
                        "audit line "@ + dec_text(number) + ": cbor: "@ + (e.0.name() + ": "@ + e.1),
                    ),
                    Ok(rec) => {
                        let rec_prev = match rec.bytes_field("prev"@) {
                            Some(b) => b,
                            None => Seq::empty(),
                        };
                        let rec_seq = match rec.u64_field("seq"@) {
                            Some(n) => n,
                            None => u64::MAX,
                        };
                        if rec_prev == prev && rec_seq == seq {
                            Ok(Some(sha_of(body)))
                        } else {
                            Ok(None)
                        }
                    },
                }
            },
        },
    }
}

/// Walks the lines from `i` on: the last digest and the number of records as far
/// as the chain is whole, and whether it is whole to the end. Empty lines do not
/// count.
pub open spec fn scan_from(lines: Seq<Seq<char>>, i: int, prev: Seq<u8>, seq: nat) -> Result<
    (Seq<u8>, nat, bool),
    Seq<char>,
>
    decreases lines.len() - i,
{
    if i < 0 || i >= lines.len() {
        Ok((prev, seq, true))
    } else {
        let line = trimmed(lines[i]);
        if line.len() == 0 {
            scan_from(lines, i + 1, prev, seq)
        } else {
            match line_step(line, (i + 1) as nat, prev, seq) {
                Err(e) => Err(e),
                Ok(None) => Ok((prev, seq, false)),
                Ok(Some(h)) => scan_from(lines, i + 1, h, seq + 1),
            }
        }
    }
}

/// The digest that the first record refers to.
pub open spec fn genesis() -> Seq<u8> {
    Seq::new(32, |i: int| 0u8)
}

/// What a chain's lines say.
pub open spec fn scan_of(lines: Seq<Seq<char>>) -> Result<(Seq<u8>, nat, bool), Seq<char>> {
    scan_from(lines, 0, genesis(), 0)
}

proof fn lemma_no_space(b: Seq<u8>, i: int)
    requires
        0 <= i < hex_text(b).len(),
    ensures
        !is_space(hex_text(b)[i]),
        hex_text(b)[i] != ' ',
{
    let d = if i % 2 == 0 {
        b[i / 2] as int / 16
    } else {
        b[i / 2] as int % 16
    };
    assert(0 <= d < 16);
    assert(hex_text(b)[i] == hex_digit(d));
}

/// Text without white space.
spec fn solid(s: Seq<char>) -> bool {
    forall|i: int| 0 <= i < s.len() ==> !is_space(#[trigger] s[i]) && s[i] != ' '
}

proof fn lemma_two_parts(a: Seq<char>, b: Seq<char>)
    requires
        a.len() > 0,
        b.len() > 0,
        solid(a),
        solid(b),
    ensures
        trimmed(a + " "@ + b) == a + " "@ + b,
        parts_of(a + " "@ + b) == (a, b),
{
    let line = a + " "@ + b;
    reveal_strlit(" ");
    assert(" "@ =~= seq![' ']);
    assert(line[0] == a[0]);
    assert(line.last() == b[b.len() - 1]);
    lemma_find(line, " "@, 0);
    assert(occurs_at(line, " "@, a.len() as int)) by {
        assert(line.subrange(a.len() as int, (a.len() + 1) as int) =~= seq![' ']);
    }
    match find_from(line, " "@, 0) {
        Some(i) => {
            assert(line[i] == ' ') by {
                assert(line.subrange(i, i + 1)[0] == ' ');
            }
            if i < a.len() {
                assert(a[i] == ' ');
            }
            assert(line.take(i) =~= a);
            assert(line.skip(i + 1) =~= b);
        },
        None => {},
    }
}

proof fn lemma_hex_solid(b: Seq<u8>)
    ensures
        solid(hex_text(b)),
{
    assert forall|i: int| 0 <= i < hex_text(b).len() implies !is_space(#[trigger] hex_text(b)[i])
        && hex_text(b)[i] != ' ' by {
        lemma_no_space(b, i);
    }
}

proof fn lemma_line_parts(bytes: Seq<u8>)
    requires
        bytes.len() > 0,
    ensures
        trimmed(line_of(bytes)) == line_of(bytes),
        parts_of(line_of(bytes)) == (hex_text(bytes), hex_text(sha_of(bytes))),
{
    lemma_sha_len(bytes);
    lemma_hex_solid(bytes);
    lemma_hex_solid(sha_of(bytes));
    lemma_two_parts(hex_text(bytes), hex_text(sha_of(bytes)));
}

/// The keys of a record.
proof fn lemma_record_keys(at: u64, event: Seq<char>, fields: CborV, prev: Seq<u8>, seq: u64)
    ensures
        ({
            let v = record_value(at, event, fields, prev, seq);
            &&& text_keys(v->Pairs_0)
            &&& v.field("prev"@) == Some(CborV::Bytes(prev))
            &&& v.field("seq"@) == Some(CborV::U64(seq))
        }),
{
    let m = record_value(at, event, fields, prev, seq)->Pairs_0;
    reveal_strlit("event");
    reveal_strlit("fields");
    reveal_strlit("logical_at");
    reveal_strlit("prev");
    reveal_strlit("seq");
    assert("event"@.len() == 5);
    assert("fields"@.len() == 6);
    assert("logical_at"@.len() == 10);
    assert("prev"@.len() == 4);
    assert("seq"@.len() == 3);
    lemma_short_text("event"@);
    lemma_short_text("fields"@);
    lemma_short_text("logical_at"@);
    lemma_short_text("prev"@);
    lemma_short_text("seq"@);
    reveal_with_fuel(lookup_from, 6);
    assert(m[0].0 == CborV::Text("event"@));
    assert(m[1].0 == CborV::Text("fields"@));
    assert(m[2].0 == CborV::Text("logical_at"@));
    assert(m[3].0 == CborV::Text("prev"@));
    assert(m[4].0 == CborV::Text("seq"@));
}

/// The line that a chain adds is whole to it, and moves it to the record's
/// digest.
pub proof fn lemma_line_accepted(
    at: u64,
    event: Seq<char>,
    fields: CborV,
    prev: Seq<u8>,
    seq: u64,
    number: nat,
)
    requires
        fits(record_value(at, event, fields, prev, seq)),
    ensures
        ({
            let bytes = enc(record_value(at, event, fields, prev, seq));
            &&& bytes.len() > 0
            &&& trimmed(line_of(bytes)) == line_of(bytes)
            &&& line_of(bytes).len() > 0
            &&& line_step(line_of(bytes), number, prev, seq as nat) == Ok::<
                Option<Seq<u8>>,
                Seq<char>,
            >(Some(sha_of(bytes)))
        }),
{
    let v = record_value(at, event, fields, prev, seq);
    let bytes = enc(v);
    let m = v->Pairs_0;
    crate::codec_laws::lemma_decode_encode(v);
    lemma_line_parts(bytes);
    lemma_hex_round_trip(bytes);
    lemma_hex_round_trip(sha_of(bytes));
    lemma_bytes_back(v);
    lemma_record_keys(at, event, fields, prev, seq);
    lemma_canon_field(m, "prev"@);
    lemma_canon_field(m, "seq"@);
}

proof fn lemma_scan_more(lines: Seq<Seq<char>>, more: Seq<char>, i: int, prev: Seq<u8>, seq: nat)
    requires
        0 <= i <= lines.len(),
        scan_from(lines, i, prev, seq) is Ok,
        scan_from(lines, i, prev, seq)->Ok_0.2,
    ensures
        ({
            let end = scan_from(lines, i, prev, seq)->Ok_0;
            scan_from(lines.push(more), i, prev, seq) == scan_from(
                lines.push(more),
                lines.len() as int,
                end.0,
                end.1,
            )
        }),
    decreases lines.len() - i,
{
    if i < lines.len() {
        assert(lines.push(more)[i] == lines[i]);
        let line = trimmed(lines[i]);
        if line.len() == 0 {
            lemma_scan_more(lines, more, i + 1, prev, seq);
        } else {
            match line_step(line, (i + 1) as nat, prev, seq) {
                Ok(Some(h)) => lemma_scan_more(lines, more, i + 1, h, seq + 1),
                _ => {},
            }
        }
    }
}

/// A whole chain that is appended to is whole, one record longer, and stands at
/// the new record's digest.
pub proof fn lemma_append_keeps_whole(
    lines: Seq<Seq<char>>,
    at: u64,
    event: Seq<char>,
    fields: CborV,
    prev: Seq<u8>,
    seq: u64,
)
    requires
        scan_of(lines) == Ok::<_, Seq<char>>((prev, seq as nat, true)),
        fits(record_value(at, event, fields, prev, seq)),
    ensures
        ({
            let bytes = enc(record_value(at, event, fields, prev, seq));
            scan_of(lines.push(line_of(bytes))) == Ok::<_, Seq<char>>(
                (sha_of(bytes), (seq + 1) as nat, true),
            )
        }),
{
    let bytes = enc(record_value(at, event, fields, prev, seq));
    let all = lines.push(line_of(bytes));
    lemma_scan_more(lines, line_of(bytes), 0, genesis(), 0);
    lemma_line_accepted(at, event, fields, prev, seq, (lines.len() + 1) as nat);
    assert(all[lines.len() as int] == line_of(bytes));
    assert(scan_from(all, (lines.len() + 1) as int, sha_of(bytes), (seq + 1) as nat) == Ok::<
        _,
        Seq<char>,
    >((sha_of(bytes), (seq + 1) as nat, true)));
}

/// The chain of the lines is whole.
pub open spec fn whole(r: Result<(Seq<u8>, nat, bool), Seq<char>>) -> bool {
    r is Ok && r->Ok_0.2
}

/// The digest of the record in a line.
pub open spec fn digest_in(line: Seq<char>) -> Seq<u8> {
    sha_of(unhex_of(parts_of(trimmed(line)).0)->0)
}

/// The line holds a record.
pub open spec fn is_record(line: Seq<char>) -> bool {
    trimmed(line).len() > 0
}

proof fn lemma_follows(
    a: Seq<Seq<char>>,
    b: Seq<Seq<char>>,
    k: int,
    p: Seq<u8>,
    q: Seq<u8>,
    seq: nat,
    later: int,
)
    requires
        a.len() == b.len(),
        0 <= k <= later < a.len(),
        forall|j: int| k <= j < a.len() ==> a[j] == b[j],
        is_record(a[later]),
        whole(scan_from(a, k, p, seq)),
        whole(scan_from(b, k, q, seq)),
    ensures
        p == q,
    decreases later - k,
{
    assert(a[k] == b[k]);
    if !is_record(a[k]) {
        lemma_follows(a, b, k + 1, p, q, seq, later);
    }
}

proof fn lemma_changed(
    a: Seq<Seq<char>>,
    i: int,
    x: Seq<char>,
    later: int,
    k: int,
    p: Seq<u8>,
    seq: nat,
)
    requires
        0 <= k <= i < later < a.len(),
        is_record(a[i]),
        is_record(x),
        is_record(a[later]),
        whole(scan_from(a, k, p, seq)),
        whole(scan_from(a.update(i, x), k, p, seq)),
    ensures
        digest_in(x) == digest_in(a[i]),
    decreases i - k,
{
    let b = a.update(i, x);
    if k < i {
        assert(a[k] == b[k]);
        if is_record(a[k]) {
            let h = line_step(trimmed(a[k]), (k + 1) as nat, p, seq)->Ok_0->0;
            lemma_changed(a, i, x, later, k + 1, h, seq + 1);
        } else {
            lemma_changed(a, i, x, later, k + 1, p, seq);
        }
    } else {
        let h = line_step(trimmed(a[i]), (i + 1) as nat, p, seq)->Ok_0->0;
        let g = line_step(trimmed(x), (i + 1) as nat, p, seq)->Ok_0->0;
        lemma_follows(a, b, i + 1, h, g, seq + 1, later);
    }
}

/// A record that others follow cannot be changed unseen: where a chain is whole
/// before and after one of its lines was replaced, the two records have the same
/// digest.
pub proof fn lemma_change_is_seen(lines: Seq<Seq<char>>, i: int, changed: Seq<char>, later: int)
    requires
        0 <= i < later < lines.len(),
        is_record(lines[i]),
        is_record(changed),
        is_record(lines[later]),
        whole(scan_of(lines)),
        whole(scan_of(lines.update(i, changed))),
    ensures
        digest_in(changed) == digest_in(lines[i]),
{
    lemma_changed(lines, i, changed, later, 0, genesis(), 0);
}

/// Where a chain stands.
#[verifier::ext_equal]
pub struct ChainV {
    pub prev: Seq<u8>,
    pub seq: u64,
}

/// The next record of a chain, as a mathematical object.
#[verifier::ext_equal]
pub struct EntryV {
    /// The line of the record.
    pub line: Seq<char>,
    /// The digest of the record.
    pub hash: Seq<u8>,
    /// Where the chain stood.
    pub prev: Seq<u8>,
    pub seq: u64,
}

impl ChainV {
    /// The bytes of the next record.
    pub open spec fn next_bytes(self, at: u64, event: Seq<char>, fields: CborV) -> Seq<u8> {
        enc(record_value(at, event, fields, self.prev, self.seq))
    }

    /// The next record.
    pub open spec fn next(self, at: u64, event: Seq<char>, fields: CborV) -> EntryV {
        let bytes = self.next_bytes(at, event, fields);
        EntryV { line: line_of(bytes), hash: sha_of(bytes), prev: self.prev, seq: self.seq }
    }

    /// The chain behind a record.
    pub open spec fn behind(self, e: EntryV) -> ChainV {
        ChainV { prev: e.hash, seq: (self.seq + 1) as u64 }
    }
}

/// The next record of a chain.
#[derive(Debug)]
pub struct AuditEntry {
    line: String,
    hash: [u8; 32],
    prev: [u8; 32],
    seq: u64,
}

impl View for AuditEntry {
    type V = EntryV;

    closed spec fn view(&self) -> EntryV {
        EntryV { line: self.line@, hash: self.hash@, prev: self.prev@, seq: self.seq }
    }
}

impl AuditEntry {
    /// The line of the record, as it is written.
    pub fn line(&self) -> (r: &str)
        ensures
            r@ == self@.line,
    {
        self.line.as_str()
    }

    /// The digest of the record.
    pub fn hash(&self) -> (r: [u8; 32])
        ensures
            r@ == self@.hash,
    {
        self.hash
    }
}

/// The end of an audit chain.
#[derive(Debug)]
pub struct AuditChain {
    prev_hash: [u8; 32],
    seq: u64,
}

impl View for AuditChain {
    type V = ChainV;

    closed spec fn view(&self) -> ChainV {
        ChainV { prev: self.prev_hash@, seq: self.seq }
    }
}

/// What a record says: the time, the event and its fields.
pub type SaidV = (u64, Seq<char>, CborV);

/// The lines of the first `n` records that a fresh chain writes, and where it stands
/// behind them.
pub open spec fn written(said: Seq<SaidV>, n: nat) -> (Seq<Seq<char>>, ChainV)
    decreases n,
{
    if n == 0 {
        (Seq::empty(), ChainV { prev: genesis(), seq: 0 })
    } else {
        let (lines, chain) = written(said, (n - 1) as nat);
        let e = chain.next(said[n - 1].0, said[n - 1].1, said[n - 1].2);
        (lines.push(e.line), chain.behind(e))
    }
}

/// The bytes of the record at a place.
pub open spec fn record_at(said: Seq<SaidV>, k: int) -> Seq<u8> {
    written(said, k as nat).1.next_bytes(said[k].0, said[k].1, said[k].2)
}

/// The records can be encoded and numbered.
pub open spec fn writable(said: Seq<SaidV>) -> bool {
    said.len() < u64::MAX && forall|k: int|
        0 <= k < said.len() ==> fits(
            record_value(
                (#[trigger] said[k]).0,
                said[k].1,
                said[k].2,
                written(said, k as nat).1.prev,
                written(said, k as nat).1.seq,
            ),
        )
}

/// A fresh chain that wrote `n` records is whole, has `n` records, and is taken up
/// where it stands.
pub proof fn lemma_written_whole(said: Seq<SaidV>, n: nat)
    requires
        writable(said),
        n <= said.len(),
    ensures
        scan_of(written(said, n).0) == Ok::<_, Seq<char>>((written(said, n).1.prev, n, true)),
        written(said, n).1.seq == n,
        written(said, n).0.len() == n,
    decreases n,
{
    if n > 0 {
        let m = (n - 1) as nat;
        lemma_written_whole(said, m);
        let (lines, chain) = written(said, m);
        assert(fits(
            record_value(said[m as int].0, said[m as int].1, said[m as int].2, chain.prev, chain.seq),
        ));
        lemma_append_keeps_whole(
            lines,
            said[m as int].0,
            said[m as int].1,
            said[m as int].2,
            chain.prev,
            chain.seq,
        );
    }
}

proof fn lemma_written_prefix(said: Seq<SaidV>, k: int, n: nat)
    requires
        0 <= k < n,
    ensures
        written(said, n).0.len() == n,
        written(said, n).0[k] == line_of(record_at(said, k)),
    decreases n,
{
    if k < n - 1 {
        lemma_written_prefix(said, k, (n - 1) as nat);
    } else if n > 1 {
        lemma_written_prefix(said, 0, (n - 1) as nat);
    }
}

proof fn lemma_scan_reaches(said: Seq<SaidV>, lines: Seq<Seq<char>>, k: nat)
    requires
        writable(said),
        k <= said.len(),
        k <= lines.len(),
        forall|j: int| 0 <= j < k ==> #[trigger] lines[j] == line_of(record_at(said, j)),
    ensures
        scan_of(lines) == scan_from(lines, k as int, written(said, k).1.prev, k),
    decreases k,
{
    if k > 0 {
        let m = (k - 1) as nat;
        lemma_scan_reaches(said, lines, m);
        lemma_written_whole(said, m);
        let chain = written(said, m).1;
        assert(fits(
            record_value(said[m as int].0, said[m as int].1, said[m as int].2, chain.prev, chain.seq),
        ));
        lemma_line_accepted(
            said[m as int].0,
            said[m as int].1,
            said[m as int].2,
            chain.prev,
            chain.seq,
            k,
        );
        assert(lines[m as int] == line_of(record_at(said, m as int)));
    }
}

/// The line names a digest that its record does not have.
pub open spec fn misnamed(line: Seq<char>) -> bool {
    let (body, hash) = parts_of(trimmed(line));
    is_record(line) && unhex_of(body) is Some && unhex_of(hash) is Some && unhex_of(hash)->0
        != sha_of(unhex_of(body)->0)
}

/// A line of a written chain that is replaced by one whose digest is not that of
/// its record is refused at its own place: the records before it stand, and the
/// chain is not whole.
pub proof fn lemma_replaced_line(said: Seq<SaidV>, k: int, line: Seq<char>)
    requires
        writable(said),
        0 <= k < said.len(),
        misnamed(line),
    ensures
        scan_of(written(said, said.len()).0.update(k, line)) == Ok::<_, Seq<char>>(
            (written(said, k as nat).1.prev, k as nat, false),
        ),
{
    let n = said.len();
    let lines = written(said, n).0.update(k, line);
    lemma_written_prefix(said, k, n);
    assert forall|j: int| 0 <= j < k implies #[trigger] lines[j] == line_of(record_at(said, j)) by {
        lemma_written_prefix(said, j, n);
    }
    lemma_scan_reaches(said, lines, k as nat);
    assert(lines[k] == line);
}

proof fn lemma_solid_update(s: Seq<char>, i: int, c: char)
    requires
        solid(s),
        0 <= i < s.len(),
        hex_value(c) is Some,
    ensures
        solid(s.update(i, c)),
{
}

proof fn lemma_digit_misnamed(bytes: Seq<u8>, i: int, c: char)
    requires
        bytes.len() > 0,
        0 <= i < line_of(bytes).len(),
        i != hex_text(bytes).len(),
        hex_value(c) is Some,
        hex_value(c) != hex_value(line_of(bytes)[i]),
        i < hex_text(bytes).len() ==> digest_in(line_of(bytes).update(i, c)) != sha_of(bytes),
    ensures
        misnamed(line_of(bytes).update(i, c)),
{
    let (a, b) = (hex_text(bytes), hex_text(sha_of(bytes)));
    let line = line_of(bytes).update(i, c);
    reveal_strlit(" ");
    assert(" "@ =~= seq![' ']);
    lemma_hex_solid(bytes);
    lemma_hex_solid(sha_of(bytes));
    lemma_sha_len(bytes);
    if i < a.len() {
        assert(line_of(bytes)[i] == a[i]);
        assert(line =~= a.update(i, c) + " "@ + b);
        lemma_solid_update(a, i, c);
        lemma_two_parts(a.update(i, c), b);
        lemma_hex_round_trip(sha_of(bytes));
        let r = lemma_digit_replaced(bytes, i, c);
    } else {
        let j = i - a.len() - 1;
        assert(line_of(bytes)[i] == b[j]);
        assert(line =~= a + " "@ + b.update(j, c));
        lemma_solid_update(b, j, c);
        lemma_two_parts(a, b.update(j, c));
        lemma_hex_round_trip(bytes);
        let r = lemma_digit_replaced(sha_of(bytes), j, c);
    }
}

/// A chain with one digit of line `k` replaced by a digit of another value, in the
/// body or in the digest, is refused at that line; of a body, unless the changed
/// record has the digest of the record itself.
pub proof fn lemma_digit_is_seen(said: Seq<SaidV>, k: int, i: int, c: char)
    requires
        writable(said),
        0 <= k < said.len(),
        0 <= i < line_of(record_at(said, k)).len(),
        i != hex_text(record_at(said, k)).len(),
        hex_value(c) is Some,
        hex_value(c) != hex_value(line_of(record_at(said, k))[i]),
        i < hex_text(record_at(said, k)).len() ==> digest_in(
            line_of(record_at(said, k)).update(i, c),
        ) != sha_of(record_at(said, k)),
    ensures
        scan_of(
            written(said, said.len()).0.update(k, line_of(record_at(said, k)).update(i, c)),
        ) == Ok::<_, Seq<char>>((written(said, k as nat).1.prev, k as nat, false)),
{
    let chain = written(said, k as nat).1;
    assert(fits(record_value(said[k].0, said[k].1, said[k].2, chain.prev, chain.seq)));
    lemma_line_accepted(said[k].0, said[k].1, said[k].2, chain.prev, chain.seq, 0);
    lemma_digit_misnamed(record_at(said, k), i, c);
    lemma_replaced_line(said, k, line_of(record_at(said, k)).update(i, c));
}

/// The fields of a record.
pub open spec fn fields_value(fields: Seq<(&str, Cbor)>) -> CborV {
    map_value(Seq::new(fields.len(), |i: int| (fields[i].0@, fields[i].1@)))
}

impl AuditChain {
    /// A chain without records.
    pub fn ephemeral() -> (r: Self)
        ensures
            r@ == (ChainV { prev: genesis(), seq: 0 }),
    {
        let zero: [u8; 32] = [0u8; 32];
        assert(zero@ =~= genesis());
        AuditChain { prev_hash: zero, seq: 0 }
    }

    /// Takes up the chain that the lines hold, if it is whole.
    pub fn open(lines: &Vec<String>, path: &str) -> (r: Result<AuditChain, String>)
        requires
            lines@.len() < usize::MAX,
        ensures
            match (r, scan_of(lines.deep_view())) {
                (Ok(c), Ok((prev, seq, true))) => c@ == (ChainV { prev, seq: seq as u64 }),
                (Err(e), Ok((_, _, false))) => e@ == "audit chain at "@ + path@
                    + " is corrupt; run `ultracortex audit verify`"@,
                (Err(e), Err(w)) => e@ == w,
                _ => false,
            },
    {
        match scan(lines) {
            Ok((prev_hash, seq, whole)) => {
                if whole {
                    Ok(AuditChain { prev_hash, seq })
                } else {
                    Err(
                        cat3(
                            "audit chain at ",
                            path,
                            " is corrupt; run `ultracortex audit verify`",
                        ),
                    )
                }
            },
            Err(e) => Err(e),
        }
    }

    /// The next record, to be written and then appended.
    pub fn entry(&self, logical_at: u64, event: &str, fields: Vec<(&str, Cbor)>) -> (r: AuditEntry)
        ensures
            r@ == self@.next(logical_at, event@, fields_value(fields@)),
    {
        let fmap = Cbor::map(fields);
        let pairs = vec![
            ("event", Cbor::t(event)),
            ("fields", fmap),
            ("logical_at", Cbor::U64(logical_at)),
            ("prev", Cbor::bytes(crate::cells::blob::bytes_of(&self.prev_hash))),
            ("seq", Cbor::U64(self.seq)),
        ];
        let ghost got = Seq::new(pairs@.len(), |i: int| (pairs@[i].0@, pairs@[i].1@));
        let record = Cbor::map(pairs);
        assert(got =~= seq![
            ("event"@, CborV::Text(event@)),
            ("fields"@, fields_value(fields@)),
            ("logical_at"@, CborV::U64(logical_at)),
            ("prev"@, CborV::Bytes(self@.prev)),
            ("seq"@, CborV::U64(self@.seq)),
        ]);
        let bytes = record.encode();
        let hash = sha256(bytes.as_slice());
        AuditEntry {
            line: cat3(hex(bytes.as_slice()).as_str(), " ", hex(&hash).as_str()),
            hash,
            prev: self.prev_hash,
            seq: self.seq,
        }
    }

    /// Moves to the next record once its line was written; where it was not, the
    /// chain stays where it stands.
    pub fn append(&mut self, entry: AuditEntry, written: Result<(), String>) -> (r: Result<
        [u8; 32],
        String,
    >)
        requires
            old(self)@.seq < u64::MAX,
            entry@.prev == old(self)@.prev,
            entry@.seq == old(self)@.seq,
        ensures
            match written {
                Ok(_) => r is Ok && r->Ok_0@ == entry@.hash && final(self)@ == old(self)@.behind(
                    entry@,
                ),
                Err(e) => r == Err::<[u8; 32], String>(e) && final(self)@ == old(self)@,
            },
    {
        match written {
            Ok(_) => {
                self.prev_hash = entry.hash;
                self.seq = self.seq + 1;
                Ok(entry.hash)
            },
            Err(e) => Err(e),
        }
    }

    /// The digest and the number that the next record carries.
    pub fn head(&self) -> (r: ([u8; 32], u64))
        ensures
            r.0@ == self@.prev,
            r.1 == self@.seq,
    {
        (self.prev_hash, self.seq)
    }

    /// How many records of a chain are whole, and whether all are.
    pub fn verify(lines: &Vec<String>) -> (r: Result<(u64, bool), String>)
        requires
            lines@.len() < usize::MAX,
        ensures
            match (r, scan_of(lines.deep_view())) {
                (Ok(a), Ok(b)) => a.0 == b.1 && a.1 == b.2,
                (Err(e), Err(w)) => e@ == w,
                _ => false,
            },
    {
        match scan(lines) {
            Ok((_, seq, whole)) => Ok((seq, whole)),
            Err(e) => Err(e),
        }
    }
}

fn split_line(line: &str) -> (r: (String, String))
    ensures
        (r.0@, r.1@) == parts_of(line@),
{
    let chars = chars_of(line);
    let mark = chars_of(" ");
    proof {
        reveal_strlit(" ");
        assert(" "@.len() == 1);
    }
    match find_chars(chars.as_slice(), mark.as_slice(), 0) {
        Some(i) => {
            let n: usize = chars.len();
            let a = string_of(chars_between(chars.as_slice(), 0, i).as_slice());
            let b = string_of(chars_between(chars.as_slice(), i + 1, n).as_slice());
            assert(a@ =~= line@.take(i as int));
            assert(b@ =~= line@.skip(i + 1));
            (a, b)
        },
        None => (line.to_string(), String::new()),
    }
}

fn step(line: &str, number: u64, prev: &[u8; 32], seq: u64) -> (r: Result<Option<[u8; 32]>, String>)
    ensures
        match (r, line_step(line@, number as nat, prev@, seq as nat)) {
            (Ok(Some(a)), Ok(Some(b))) => a@ == b,
            (Ok(None), Ok(None)) => true,
            (Err(e), Err(w)) => e@ == w,
            _ => false,
        },
{
    let (body_hex, hash_hex) = split_line(line);
    let number_text = u64_text(number);
    let body = match unhex(body_hex.as_str()) {
        Some(b) => b,
        None => {
            return Err(cat3("audit line ", number_text.as_str(), ": bad hex body"));
        },
    };
    let claimed = match unhex(hash_hex.as_str()) {
        Some(b) => b,
        None => {
            return Err(cat3("audit line ", number_text.as_str(), ": bad hex hash"));
        },
    };
    let actual = sha256(body.as_slice());
    if !ct_eq(&actual, claimed.as_slice()) {
        return Ok(None);
    }
    let rec = match Cbor::decode(body.as_slice()) {
        Ok(c) => c,
        Err(e) => {
            return Err(
                cat4("audit line ", number_text.as_str(), ": cbor: ", e.describe().as_str()),
            );
        },
    };
    let linked: bool = match rec.get("prev") {
        Some(v) => match v.as_bytes() {
            Some(b) => ct_eq(b, prev),
            None => false,
        },
        None => false,
    };
    let rec_seq: u64 = match rec.opt_u64("seq") {
        Some(n) => n,
        None => u64::MAX,
    };
    proof {
        if rec@.bytes_field("prev"@) is None {
            assert(prev@.len() == 32);
            assert(Seq::<u8>::empty() != prev@);
        }
    }
    if linked && rec_seq == seq {
        Ok(Some(actual))
    } else {
        Ok(None)
    }
}

/// Walks a chain's lines: the last digest, the number of records as far as the
/// chain is whole, and whether it is whole to the end.
pub fn scan(lines: &Vec<String>) -> (r: Result<([u8; 32], u64, bool), String>)
    requires
        lines@.len() < usize::MAX,
    ensures
        match (r, scan_of(lines.deep_view())) {
            (Ok(a), Ok(b)) => a.0@ == b.0 && a.1 == b.1 && a.2 == b.2,
            (Err(e), Err(w)) => e@ == w,
            _ => false,
        },
{
    let ghost all = lines.deep_view();
    let mut prev: [u8; 32] = [0u8; 32];
    assert(prev@ =~= genesis());
    let mut seq: u64 = 0;
    let mut i: usize = 0;
    while i < lines.len()
        invariant
            i <= lines@.len() < usize::MAX,
            seq <= i,
            all == lines.deep_view(),
            scan_of(all) == scan_from(all, i as int, prev@, seq as nat),
        decreases lines.len() - i,
    {
        assert(all[i as int] == lines@[i as int]@);
        let line = trim_text(lines[i].as_str());
        i += 1;
        if chars_of(line.as_str()).len() > 0 {
            match step(line.as_str(), i as u64, &prev, seq) {
                Err(e) => {
                    return Err(e);
                },
                Ok(None) => {
                    return Ok((prev, seq, false));
                },
                Ok(Some(h)) => {
                    prev = h;
                    seq = seq + 1;
                },
            }
        }
    }
    Ok((prev, seq, true))
}

} // verus!
