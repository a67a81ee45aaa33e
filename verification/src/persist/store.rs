//! Content-addressed blobs and pinned weight files: where they lie, how often a
//! blob is referred to, and whether what was read is what was meant.

use vstd::prelude::*;
use crate::digest::{sha256, sha_of};
use crate::hex::{hex, hex_text};
use crate::persist::kms::ct_eq;
use crate::text::{
    cat2, cat3, cat5, cat6, chars_between, chars_of, str_eq, string_of,
};
use crate::textmap::{lists, text_order, TextMap};
use crate::vocab::{ErrCode, ErrV, UcError, UcResult};

verus! {

/// Where a blob lies below the store's root: two levels of directories named by
/// the first digits of its digest.
pub open spec fn blob_path(hash: Seq<u8>) -> Seq<char> {
    let h = hex_text(hash);
    h.subrange(0, 2) + "/"@ + h.subrange(2, 4) + "/"@ + h
}

/// What a read of a blob answers, given what was found.
pub open spec fn blob_read(hash: Seq<u8>, found: Option<Seq<u8>>) -> Result<Seq<u8>, ErrV> {
    match found {
        None => Err((ErrCode::NotFound, "cas blob "@ + hex_text(hash) + " not found"@)),
        Some(b) => if sha_of(b) == hash {
            Ok(b)
        } else {
            Err(corrupt_error(hash))
        },
    }
}

/// What is found under a blob's path is not the blob.
pub open spec fn corrupt_error(hash: Seq<u8>) -> ErrV {
    (ErrCode::Internal, "cas blob "@ + hex_text(hash) + " failed hash verification"@)
}

/// Whether bytes that are stored have to be written, given what was found under
/// their path; an error where what was found is something else.
pub open spec fn blob_stored(bytes: Seq<u8>, found: Option<Seq<u8>>) -> Result<bool, ErrV> {
    match found {
        None => Ok(true),
        Some(b) => if sha_of(b) == sha_of(bytes) {
            Ok(false)
        } else {
            Err(corrupt_error(sha_of(bytes)))
        },
    }
}

fn corrupt(hash: &[u8; 32]) -> (r: UcError)
    ensures
        r.plain(corrupt_error(hash@).0, corrupt_error(hash@).1),
{
    UcError::internal(
        cat3("cas blob ", hex(hash).as_str(), " failed hash verification").as_str(),
    )
}

/// Bytes are stored exactly where they can be read again: with what lies under
/// their path afterwards, a read of their digest succeeds.
pub proof fn lemma_stored_readable(bytes: Seq<u8>, found: Option<Seq<u8>>)
    ensures
        match blob_stored(bytes, found) {
            Ok(write) => blob_read(
                sha_of(bytes),
                if write {
                    Some(bytes)
                } else {
                    found
                },
            ) is Ok,
            Err(e) => blob_read(sha_of(bytes), found) == Err::<Seq<u8>, ErrV>(e),
        },
{
}

/// A read gives back the very bytes whose digest was asked for, or fails; and
/// what was stored is given back.
pub proof fn lemma_blob_read(hash: Seq<u8>, found: Option<Seq<u8>>, stored: Seq<u8>)
    ensures
        match blob_read(hash, found) {
            Ok(b) => sha_of(b) == hash && found == Some(b),
            Err(_) => true,
        },
        blob_read(sha_of(stored), Some(stored)) == Ok::<_, ErrV>(stored),
{
}

/// How often each blob is referred to, by the hex text of its digest.
#[derive(Debug)]
pub struct CasStore {
    refcounts: TextMap<u64>,
}

impl View for CasStore {
    type V = Map<Seq<char>, u64>;

    closed spec fn view(&self) -> Map<Seq<char>, u64> {
        self.refcounts@
    }
}

/// The number of references to a blob.
pub open spec fn refs(m: Map<Seq<char>, u64>, k: Seq<char>) -> u64 {
    if m.contains_key(k) {
        m[k]
    } else {
        0
    }
}

/// The blobs of a list that nothing refers to.
pub open spec fn unreferred(m: Map<Seq<char>, u64>, o: Seq<Seq<char>>) -> Seq<Seq<char>>
    decreases o.len(),
{
    if o.len() == 0 {
        Seq::empty()
    } else if m[o.last()] == 0 {
        unreferred(m, o.drop_last()).push(o.last())
    } else {
        unreferred(m, o.drop_last())
    }
}

impl CasStore {
    pub fn new() -> (r: Self)
        ensures
            r@ == Map::<Seq<char>, u64>::empty(),
    {
        CasStore { refcounts: TextMap::new() }
    }

    /// Where a blob lies below the store's root.
    pub fn path_for(hash: &[u8; 32]) -> (r: String)
        ensures
            r@ == blob_path(hash@),
    {
        let h = hex(hash);
        let chars = chars_of(h.as_str());
        let a = string_of(chars_between(chars.as_slice(), 0, 2).as_slice());
        let b = string_of(chars_between(chars.as_slice(), 2, 4).as_slice());
        cat5(a.as_str(), "/", b.as_str(), "/", h.as_str())
    }

    /// Stores bytes, given what was found under their path: a blob that is there is
    /// verified, and not written again. Gives the digest, and whether the bytes
    /// have to be written; counts one more reference.
    pub fn put(&mut self, bytes: &[u8], found: Option<Vec<u8>>) -> (r: UcResult<([u8; 32], bool)>)
        requires
            refs(old(self)@, hex_text(sha_of(bytes@))) < u64::MAX,
        ensures
            match blob_stored(
                bytes@,
                match found {
                    Some(b) => Some(b@),
                    None => None,
                },
            ) {
                Ok(write) => {
                    &&& r is Ok
                    &&& r->Ok_0.0@ == sha_of(bytes@)
                    &&& r->Ok_0.1 == write
                    &&& final(self)@ == old(self)@.insert(
                        hex_text(sha_of(bytes@)),
                        (refs(old(self)@, hex_text(sha_of(bytes@))) + 1) as u64,
                    )
                },
                Err(e) => r is Err && r->Err_0.plain(e.0, e.1) && final(self)@ == old(self)@,
            },
    {
        let hash = sha256(bytes);
        let write: bool = match found {
            None => true,
            Some(b) => {
                if !ct_eq(&sha256(b.as_slice()), &hash) {
                    return Err(corrupt(&hash));
                }
                false
            },
        };
        let n: u64 = self.count(&hash);
        self.refcounts.insert(hex(&hash), n + 1);
        Ok((hash, write))
    }

    /// How often a blob is referred to.
    pub fn count(&self, hash: &[u8; 32]) -> (r: u64)
        ensures
            r == refs(self@, hex_text(hash@)),
    {
        match self.refcounts.get(hex(hash).as_str()) {
            Some(n) => *n,
            None => 0,
        }
    }

    /// The blob's bytes, if what was found under its path is it.
    pub fn get(hash: &[u8; 32], found: Option<Vec<u8>>) -> (r: UcResult<Vec<u8>>)
        ensures
            match (
                r,
                blob_read(
                    hash@,
                    match found {
                        Some(b) => Some(b@),
                        None => None,
                    },
                ),
            ) {
                (Ok(a), Ok(b)) => a@ == b,
                (Err(e), Err(w)) => e.plain(w.0, w.1),
                _ => false,
            },
    {
        match found {
            None => Err(
                UcError::not_found(cat3("cas blob ", hex(hash).as_str(), " not found").as_str()),
            ),
            Some(b) => {
                if ct_eq(&sha256(b.as_slice()), hash) {
                    Ok(b)
                } else {
                    Err(corrupt(hash))
                }
            },
        }
    }

    /// Takes one reference away; an unknown blob stays unknown.
    pub fn decref(&mut self, hash: &[u8; 32])
        ensures
            final(self)@ == if old(self)@.contains_key(hex_text(hash@)) {
                let n = old(self)@[hex_text(hash@)];
                old(self)@.insert(
                    hex_text(hash@),
                    if n == 0 {
                        0
                    } else {
                        (n - 1) as u64
                    },
                )
            } else {
                old(self)@
            },
    {
        let key = hex(hash);
        if self.refcounts.contains_key(key.as_str()) {
            let n: u64 = self.count(hash);
            self.refcounts.insert(key, if n == 0 { 0 } else { n - 1 });
        }
    }

    /// The blobs that may be removed, in order.
    pub fn gc(&self) -> (r: Vec<String>)
        ensures
            r.deep_view() == unreferred(self@, text_order(self@.dom())),
            lists(text_order(self@.dom()), self@.dom()),
    {
        let n: usize = self.refcounts.len();
        let ghost o = self.refcounts.order();
        let mut out: Vec<String> = Vec::new();
        let mut i: usize = 0;
        assert(o.take(0) =~= Seq::empty());
        assert(out.deep_view() =~= Seq::empty());
        while i < n
            invariant
                i <= n == o.len(),
                o == self.refcounts.order(),
                out.deep_view() == unreferred(self@, o.take(i as int)),
            decreases n - i,
        {
            let ghost before = out.deep_view();
            assert(o.take(i + 1).drop_last() =~= o.take(i as int));
            if *self.refcounts.value_at(i) == 0 {
                let k = self.refcounts.key_at(i).as_str().to_string();
                out.push(k);
                assert(out.deep_view() =~= before.push(k@));
            }
            i += 1;
        }
        assert(o.take(n as int) =~= o);
        out
    }

    /// Sets a count, as found in recovered state.
    pub fn rebuild_refcount(&mut self, hash: &[u8; 32], count: u64)
        ensures
            final(self)@ == old(self)@.insert(hex_text(hash@), count),
    {
        self.refcounts.insert(hex(hash), count);
    }
}

/// What is removed has a count of zero, and everything with a count of zero is.
pub proof fn lemma_unreferred(m: Map<Seq<char>, u64>, o: Seq<Seq<char>>, k: Seq<char>)
    ensures
        unreferred(m, o).contains(k) <==> o.contains(k) && m[k] == 0,
    decreases o.len(),
{
    if o.len() > 0 {
        let front = o.drop_last();
        lemma_unreferred(m, front, k);
        assert(o =~= front.push(o.last()));
        if front.contains(k) {
            let j = choose|j: int| 0 <= j < front.len() && front[j] == k;
            assert(o[j] == k);
        }
        if o.contains(k) && k != o.last() {
            let j = choose|j: int| 0 <= j < o.len() && o[j] == k;
            assert(front[j] == k);
        }
        let u = unreferred(m, front);
        if u.contains(k) {
            let j = choose|j: int| 0 <= j < u.len() && u[j] == k;
            assert(u.push(o.last())[j] == k);
        }
        assert(u.push(o.last())[u.len() as int] == o.last());
        assert(o[o.len() - 1] == o.last());
    }
}

/// The lower-case form of an ASCII letter.
pub open spec fn ascii_lower(c: char) -> char {
    if 'A' <= c <= 'Z' {
        ((c as u8) + 32) as u8 as char
    } else {
        c
    }
}

/// A text with its ASCII letters in lower case.
pub fn lower_ascii(s: &str) -> (r: String)
    ensures
        r@ == s@.map_values(|c: char| ascii_lower(c)),
{
    let chars = chars_of(s);
    let mut out: Vec<char> = Vec::new();
    let mut i: usize = 0;
    while i < chars.len()
        invariant
            i <= chars@.len(),
            out@ == chars@.take(i as int).map_values(|c: char| ascii_lower(c)),
        decreases chars.len() - i,
    {
        let ghost before = out@;
        let c: char = chars[i];
        let l: char = if 'A' <= c && c <= 'Z' { (c as u8 + 32) as char } else { c };
        out.push(l);
        i += 1;
        assert(chars@.take(i as int) =~= chars@.take(i - 1).push(c));
        assert(out@ =~= chars@.take(i as int).map_values(|c: char| ascii_lower(c)));
    }
    assert(chars@.take(chars@.len() as int) =~= chars@);
    string_of(out.as_slice())
}

/// Where a model's weights lie below the data directory.
pub fn weight_path(model: &str, sha_hex: &str) -> (r: String)
    ensures
        r@ == "weights/"@ + model@ + "/"@ + sha_hex@ + ".gguf"@,
{
    cat5("weights/", model, "/", sha_hex, ".gguf")
}

/// Judges a weight file by its digest's hex text, if it is there: it has to be
/// the pinned one.
pub fn verify_weight_file(path: &str, model: &str, sha_hex: &str, actual: Option<String>) -> (r:
    UcResult<()>)
    ensures
        match (r, actual) {
            (Err(e), None) => e.plain(ErrCode::NotFound, "weight file missing: "@ + path@),
            (r, Some(a)) => if a@ == sha_hex@.map_values(|c: char| ascii_lower(c)) {
                r is Ok
            } else {
                r is Err && r->Err_0.plain(
                    ErrCode::Internal,
                    "weight hash mismatch for "@ + model@ + ": expected "@ + sha_hex@ + ", got "@
                        + a@,
                )
            },
            _ => false,
        },
{
    match actual {
        None => Err(UcError::not_found(cat2("weight file missing: ", path).as_str())),
        Some(a) => {
            if str_eq(a.as_str(), lower_ascii(sha_hex).as_str()) {
                Ok(())
            } else {
                Err(
                    UcError::internal(
                        cat6(
                            "weight hash mismatch for ",
                            model,
                            ": expected ",
                            sha_hex,
                            ", got ",
                            a.as_str(),
                        ).as_str(),
                    ),
                )
            }
        },
    }
}

} // verus!
