//! Full-state snapshots: the state of every cell, under a name that carries the
//! time and the content's digest.

use vstd::prelude::*;
use crate::cbor::{lookup_from, map_value, missing_uint, views, Cbor, CborV};
use crate::codec::{enc, value_of};
use crate::codec_laws::{
    canon, fits, lemma_bytes_back, lemma_canon_field, lemma_short_text, text_keys,
};
use crate::digest::{lemma_sha_len, sha256, sha_of};
use crate::hex::{hex, hex_text};
use crate::idmap::{
    id_order, id_rows, id_unrows, lemma_id_rows_back, lemma_id_unrows_stops, IdMap,
};
use crate::text::{cat5, chars_between, chars_of, padded, padded_text, string_of};
use crate::vocab::{ErrCode, ErrV, UcError, UcResult};

verus! {

/// The row of a cell's state.
pub open spec fn state_row() -> spec_fn(u64, CborV) -> CborV {
    |k: u64, s: CborV| map_value(seq![("cell_id"@, CborV::U64(k)), ("state"@, s)])
}

/// The state of a row.
pub open spec fn state_of_row(v: CborV) -> Result<(u64, CborV), ErrV> {
    match v.u64_field("cell_id"@) {
        None => Err((ErrCode::Internal, missing_uint("cell_id"@))),
        Some(k) => match v.field("state"@) {
            None => Err((ErrCode::ContractViolation, "snapshot cell missing state"@)),
            Some(s) => Ok((k, s)),
        },
    }
}

/// The states of rows.
pub open spec fn state_read() -> spec_fn(CborV) -> Result<(u64, CborV), ErrV> {
    |v: CborV| state_of_row(v)
}

/// The encoded form of a snapshot.
pub open spec fn snapshot_value(at: u64, states: Map<u64, CborV>) -> CborV {
    map_value(
        seq![
            ("logical_at"@, CborV::U64(at)),
            ("cells"@, CborV::Array(id_rows(states, state_row()))),
        ],
    )
}

/// What an encoded snapshot says.
pub open spec fn snapshot_read(v: CborV) -> Result<(u64, Map<u64, CborV>), ErrV> {
    match v.u64_field("logical_at"@) {
        None => Err((ErrCode::Internal, missing_uint("logical_at"@))),
        Some(at) => {
            let (states, e) = match v.array_field("cells"@) {
                Some(a) => id_unrows(a, state_read()),
                None => (Map::empty(), None),
            };
            match e {
                Some(e) => Err(e),
                None => Ok((at, states)),
            }
        },
    }
}

/// The name of a snapshot's file.
pub open spec fn snapshot_name(at: u64, bytes: Seq<u8>) -> Seq<char> {
    "snap-"@ + padded(at as nat, 16) + "-"@ + hex_text(sha_of(bytes)).take(12) + ".cbor"@
}

/// States in canonical form.
pub open spec fn canon_states(states: Map<u64, CborV>) -> Map<u64, CborV> {
    states.map_values(|s: CborV| canon(s))
}

/// Reading a snapshot's bytes gives the time and every cell's state back, each
/// state in canonical form.
pub proof fn lemma_snapshot_round_trip(at: u64, states: Map<u64, CborV>)
    requires
        states.dom().finite(),
        fits(snapshot_value(at, states)),
    ensures
        value_of(enc(snapshot_value(at, states))) is Ok,
        snapshot_read(value_of(enc(snapshot_value(at, states)))->Ok_0) == Ok::<_, ErrV>(
            (at, canon_states(states)),
        ),
{
    let v = snapshot_value(at, states);
    lemma_bytes_back(v);
    let m = v->Pairs_0;
    let rows = id_rows(states, state_row());
    lemma_keys();
    reveal_with_fuel(lookup_from, 3);
    assert(m[0].0 == CborV::Text("logical_at"@));
    assert(m[1].0 == CborV::Text("cells"@));
    assert(v.field("logical_at"@) == Some(CborV::U64(at)));
    assert(v.field("cells"@) == Some(CborV::Array(rows)));
    assert(text_keys(m));
    lemma_canon_field(m, "logical_at"@);
    lemma_canon_field(m, "cells"@);
    let back = canon(CborV::Array(rows))->Array_0;
    let twice = canon_states(states);
    let row = |k: u64, s: CborV| canon(state_row()(k, states[k]));
    assert(twice.dom() =~= states.dom());
    assert(back =~= id_rows(twice, row));
    assert forall|k: u64| twice.contains_key(k) implies #[trigger] state_read()(
        row(k, twice[k]),
    ) == Ok::<_, ErrV>((k, twice[k])) by {
        let one = state_row()(k, states[k]);
        let p = one->Pairs_0;
        assert(p[0].0 == CborV::Text("cell_id"@));
        assert(p[1].0 == CborV::Text("state"@));
        assert(one.field("cell_id"@) == Some(CborV::U64(k)));
        assert(one.field("state"@) == Some(states[k]));
        assert(text_keys(p));
        lemma_canon_field(p, "cell_id"@);
        lemma_canon_field(p, "state"@);
    }
    lemma_id_rows_back(twice, row, state_read());
}

proof fn lemma_keys()
    ensures
        "logical_at"@ != "cells"@,
        "cell_id"@ != "state"@,
        fits(CborV::Text("logical_at"@)),
        fits(CborV::Text("cells"@)),
        fits(CborV::Text("cell_id"@)),
        fits(CborV::Text("state"@)),
{
    reveal_strlit("logical_at");
    reveal_strlit("cells");
    reveal_strlit("cell_id");
    reveal_strlit("state");
    assert("logical_at"@.len() == 10);
    assert("cells"@.len() == 5);
    assert("cell_id"@.len() == 7);
    assert("state"@.len() == 5);
    lemma_short_text("logical_at"@);
    lemma_short_text("cells"@);
    lemma_short_text("cell_id"@);
    lemma_short_text("state"@);
}

/// The name and the bytes of a snapshot.
pub fn write_snapshot(logical_at: u64, states: &IdMap<Cbor>) -> (r: (String, Vec<u8>))
    ensures
        r.1@ == enc(snapshot_value(logical_at, states@)),
        r.0@ == snapshot_name(logical_at, r.1@),
{
    let mut items: Vec<Cbor> = Vec::new();
    let mut i: usize = 0;
    let n: usize = states.len();
    let ghost want = id_rows(states@, state_row());
    assert(views(items@) =~= want.take(0));
    while i < n
        invariant
            i <= n == states.order().len(),
            states.order() == id_order(states@.dom()),
            want == id_rows(states@, state_row()),
            views(items@) == want.take(i as int),
        decreases n - i,
    {
        let ghost before = views(items@);
        let k: u64 = states.key_at(i);
        let s = states.value_at(i);
        let row = Cbor::map2("cell_id", Cbor::U64(k), "state", s.dup());
        items.push(row);
        assert(views(items@) =~= before.push(row@));
        i += 1;
        assert(want.take(i as int) =~= want.take(i - 1).push(want[i - 1]));
    }
    assert(want.take(n as int) =~= want);
    let snap = Cbor::map2("logical_at", Cbor::U64(logical_at), "cells", Cbor::arr(items));
    let bytes = snap.encode();
    let digest = hex(&sha256(bytes.as_slice()));
    proof {
        lemma_sha_len(bytes@);
    }
    let chars = chars_of(digest.as_str());
    let head = string_of(chars_between(chars.as_slice(), 0, 12).as_slice());
    assert(head@ =~= hex_text(sha_of(bytes@)).take(12));
    let at = padded_text(logical_at, 16);
    let name = cat5("snap-", at.as_str(), "-", head.as_str(), ".cbor");
    (name, bytes)
}

/// The time and the states that a snapshot's bytes hold.
pub fn load_snapshot(bytes: &[u8]) -> (r: UcResult<(u64, IdMap<Cbor>)>)
    ensures
        match (r, value_of(bytes@)) {
            (Err(e), Err(w)) => e.plain(w.0, w.1),
            (r, Ok(v)) => match (r, snapshot_read(v)) {
                (Ok(a), Ok(b)) => a.0 == b.0 && a.1@ == b.1,
                (Err(e), Err(w)) => e.plain(w.0, w.1),
                _ => false,
            },
            _ => false,
        },
{
    let c = match Cbor::decode(bytes) {
        Ok(c) => c,
        Err(e) => {
            return Err(e);
        },
    };
    let at: u64 = match c.req_u64("logical_at") {
        Ok(x) => x,
        Err(e) => {
            return Err(e);
        },
    };
    let mut states: IdMap<Cbor> = IdMap::new();
    if let Some(items) = c.opt_array("cells") {
        let ghost all = views(items@);
        let mut i: usize = 0;
        while i < items.len()
            invariant
                i <= items@.len(),
                all == views(items@),
                c@.array_field("cells"@) == Some(all),
                c@.u64_field("logical_at"@) == Some(at),
                value_of(bytes@) == Ok::<_, ErrV>(c@),
                id_unrows(all.take(i as int), state_read()) == (states@, None::<ErrV>),
            decreases items.len() - i,
        {
            proof {
                assert(all.take(i + 1).drop_last() =~= all.take(i as int));
                assert(all.take(i + 1).last() == items@[i as int]@);
                if id_unrows(all.take(i + 1), state_read()).1 is Some {
                    lemma_id_unrows_stops(all, state_read(), i + 1);
                }
            }
            let item = &items[i];
            let id: u64 = match item.req_u64("cell_id") {
                Ok(x) => x,
                Err(e) => {
                    return Err(e);
                },
            };
            match item.get("state") {
                Some(s) => {
                    states.insert(id, s.dup());
                },
                None => {
                    return Err(UcError::schema("snapshot cell missing state"));
                },
            }
            i += 1;
        }
        assert(all.take(all.len() as int) =~= all);
    }
    Ok((at, states))
}

} // verus!
