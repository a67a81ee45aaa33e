//! What the text indexes hold and count: tokens, hashed features, term and
//! document frequencies. Scores are computed from these by the caller.

use vstd::prelude::*;
use crate::cbor::{map_value, missing_text, text_views, views, Cbor, CborV, lookup_from};
use crate::fixed::{below, less};
use crate::rows::done;
use crate::text::{
    cat3, char_views, chars_of, join_texts, joined, lemma_piece, lemma_pieces_within, occurs_at,
    pieces, split_marked, str_eq, string_of,
};
use crate::textmap::{lemma_finite_listed, lemma_listed_finite, text_order, TextMap, TextSet};
use crate::vocab::{agrees, fnv1a64, fnv_of, CellId, ErrCode, ErrV, UcResult};
use vstd::string::StringSliceAdditionalSpecFns;
use vstd::utf8::encode_utf8;

verus! {

/// The lower-case form of a text, as `str::to_lowercase` gives it.
pub uninterp spec fn lower_of(s: Seq<char>) -> Seq<char>;

/// Whether a character is alphanumeric, as `char::is_alphanumeric` says.
pub uninterp spec fn alphanumeric_of(c: char) -> bool;

/// Wraps `str::to_lowercase`: the result depends on the text alone.
#[verifier::external_body]
fn lowercase(s: &str) -> (r: String)
    ensures
        r@ == lower_of(s@),
{
    s.to_lowercase()
}

/// Wraps `char::is_alphanumeric`: the result depends on the character alone.
#[verifier::external_body]
fn alphanumeric(c: char) -> (r: bool)
    ensures
        r == alphanumeric_of(c),
{
    c.is_alphanumeric()
}

/// The texts of a list that are not empty.
pub open spec fn nonempty(ps: Seq<Seq<char>>) -> Seq<Seq<char>>
    decreases ps.len(),
{
    if ps.len() == 0 {
        Seq::empty()
    } else {
        let before = nonempty(ps.drop_last());
        if ps.last().len() > 0 {
            before.push(ps.last())
        } else {
            before
        }
    }
}

/// Where the tokens of a text are cut.
pub open spec fn cuts(s: Seq<char>) -> Seq<bool> {
    Seq::new(s.len(), |i: int| !alphanumeric_of(s[i]))
}

/// The tokens of a text: its runs of alphanumeric characters, in lower case.
pub open spec fn tokens_in(s: Seq<char>) -> Seq<Seq<char>> {
    nonempty(pieces(lower_of(s), cuts(lower_of(s))))
}

/// The pieces between the marked characters, without the empty ones.
pub fn split_tokens(s: &[char], marks: &[bool]) -> (r: Vec<String>)
    requires
        marks@.len() == s@.len(),
    ensures
        text_views(r@) == nonempty(pieces(s@, marks@)),
{
    let parts = split_marked(s, marks);
    let ghost pv = char_views(parts@);
    let mut out: Vec<String> = Vec::new();
    let mut i: usize = 0;
    assert(text_views(out@) =~= Seq::<Seq<char>>::empty());
    while i < parts.len()
        invariant
            i <= parts@.len(),
            pv == char_views(parts@),
            text_views(out@) == nonempty(pv.take(i as int)),
        decreases parts.len() - i,
    {
        let ghost before = text_views(out@);
        assert(pv.take(i + 1).drop_last() =~= pv.take(i as int));
        assert(pv.take(i + 1).last() == parts@[i as int]@);
        if parts[i].len() > 0 {
            let t = string_of(parts[i].as_slice());
            out.push(t);
            assert(text_views(out@) =~= before.push(t@));
        }
        i += 1;
    }
    assert(pv.take(pv.len() as int) =~= pv);
    out
}

/// The tokens of a text.
pub fn tokenize(text: &str) -> (r: Vec<String>)
    ensures
        text_views(r@) == tokens_in(text@),
{
    let low = lowercase(text);
    let c = chars_of(low.as_str());
    let mut marks: Vec<bool> = Vec::new();
    let mut i: usize = 0;
    while i < c.len()
        invariant
            i <= c@.len(),
            c@ == lower_of(text@),
            marks@ == cuts(c@).take(i as int),
        decreases c.len() - i,
    {
        marks.push(!alphanumeric(c[i]));
        i += 1;
        assert(marks@ =~= cuts(c@).take(i as int));
    }
    assert(marks@ =~= cuts(c@));
    split_tokens(c.as_slice(), marks.as_slice())
}

/// The hash of a text.
pub open spec fn text_hash(s: Seq<char>) -> u64 {
    fnv_of(encode_utf8(s))
}

/// Adds a weight to the bucket that a feature hashes to; the top bit of the
/// hash decides the sign.
pub open spec fn bumped(v: Seq<int>, feature: Seq<char>, weight: int) -> Seq<int> {
    let h = text_hash(feature);
    let idx = h as int % (v.len() as int);
    v.update(
        idx,
        v[idx] + if h < 0x8000_0000_0000_0000 {
            weight
        } else {
            -weight
        },
    )
}

/// The buckets after the first `n` tokens: two per token.
pub open spec fn unigrams(ts: Seq<Seq<char>>, dim: nat, n: nat) -> Seq<int>
    decreases n,
{
    if n == 0 {
        Seq::new(dim, |i: int| 0int)
    } else {
        bumped(unigrams(ts, dim, (n - 1) as nat), ts[n - 1], 2)
    }
}

/// The buckets after all tokens and the first `n` pairs of neighbours: one per
/// pair.
pub open spec fn bigrams(ts: Seq<Seq<char>>, dim: nat, n: nat) -> Seq<int>
    decreases n,
{
    if n == 0 {
        unigrams(ts, dim, ts.len())
    } else {
        bumped(bigrams(ts, dim, (n - 1) as nat), ts[n - 1] + "_"@ + ts[n as int], 1)
    }
}

/// The features of a text in halves, before they are scaled to unit length.
pub open spec fn features_of(ts: Seq<Seq<char>>, dim: nat) -> Seq<int> {
    bigrams(
        ts,
        dim,
        if ts.len() == 0 {
            0
        } else {
            (ts.len() - 1) as nat
        },
    )
}

/// The numbers of a list.
pub open spec fn ints(v: Seq<i128>) -> Seq<int> {
    Seq::new(v.len(), |i: int| v[i] as int)
}

spec fn within(v: Seq<i128>, most: int) -> bool {
    forall|i: int| 0 <= i < v.len() ==> -most <= #[trigger] v[i] <= most
}

fn bump(v: &mut Vec<i128>, feature: &str, weight: i128, Ghost(most): Ghost<int>)
    requires
        old(v)@.len() > 0,
        0 <= weight <= 2,
        0 <= most <= 0x1000_0000_0000_0000_0000,
        within(old(v)@, most),
    ensures
        ints(final(v)@) == bumped(ints(old(v)@), feature@, weight as int),
        final(v)@.len() == old(v)@.len(),
        within(final(v)@, most + 2),
{
    let ghost was = ints(v@);
    let h: u64 = fnv1a64(feature.as_bytes());
    let idx: usize = (h % (v.len() as u64)) as usize;
    let x: i128 = v[idx];
    let y: i128 = if h < 0x8000_0000_0000_0000 { x + weight } else { x - weight };
    v.set(idx, y);
    assert(ints(v@) =~= bumped(was, feature@, weight as int));
}

/// The features of a text in halves: tokens count two, pairs of neighbours
/// one, each into the bucket and with the sign that its hash says.
pub fn hashed_features(tokens: &Vec<String>, dim: usize) -> (r: Vec<i128>)
    requires
        dim > 0,
    ensures
        ints(r@) == features_of(text_views(tokens@), dim as nat),
{
    let ghost ts = text_views(tokens@);
    let mut v: Vec<i128> = Vec::new();
    let mut i: usize = 0;
    while i < dim
        invariant
            i <= dim,
            v@.len() == i,
            forall|j: int| 0 <= j < i ==> v@[j] == 0,
        decreases dim - i,
    {
        v.push(0);
        i += 1;
    }
    assert(ints(v@) =~= unigrams(ts, dim as nat, 0));
    i = 0;
    while i < tokens.len()
        invariant
            i <= tokens@.len(),
            dim > 0,
            ts == text_views(tokens@),
            v@.len() == dim,
            ints(v@) == unigrams(ts, dim as nat, i as nat),
            within(v@, 2 * i),
        decreases tokens.len() - i,
    {
        assert(ts[i as int] == tokens@[i as int]@);
        bump(&mut v, tokens[i].as_str(), 2, Ghost(2 * i as int));
        i += 1;
    }
    i = 0;
    while i + 1 < tokens.len()
        invariant
            i + 1 <= tokens@.len() || i == 0,
            dim > 0,
            ts == text_views(tokens@),
            v@.len() == dim,
            ints(v@) == bigrams(ts, dim as nat, i as nat),
            within(v@, 2 * tokens@.len() + 2 * i),
        decreases tokens.len() - i,
    {
        assert(ts[i as int] == tokens@[i as int]@);
        assert(ts[i + 1] == tokens@[i + 1]@);
        let pair = cat3(tokens[i].as_str(), "_", tokens[i + 1].as_str());
        bump(&mut v, pair.as_str(), 1, Ghost(2 * tokens@.len() + 2 * i as int));
        i += 1;
    }
    v
}

/// How many tokens two texts share, and how many they hold together.
pub open spec fn overlap_of(a: Seq<Seq<char>>, b: Seq<Seq<char>>) -> (nat, nat) {
    (a.to_set().intersect(b.to_set()).len(), a.to_set().union(b.to_set()).len())
}

/// How many members two sets share.
pub fn shared(a: &TextSet, b: &TextSet) -> (r: usize)
    ensures
        r == a@.intersect(b@).len(),
        a@.finite(),
        b@.finite(),
{
    let items = a.to_vec();
    let _n: usize = b.len();
    let ghost o = text_order(a@);
    proof {
        lemma_finite_listed(a@);
        lemma_listed_finite(o, a@);
    }
    let mut count: usize = 0;
    let mut i: usize = 0;
    assert(o.take(0).to_set().intersect(b@) =~= Set::<Seq<char>>::empty());
    while i < items.len()
        invariant
            i <= items@.len(),
            text_views(items@) == o,
            o.no_duplicates(),
            count <= i,
            o.take(i as int).to_set().intersect(b@).finite(),
            count == o.take(i as int).to_set().intersect(b@).len(),
        decreases items.len() - i,
    {
        let ghost p = o.take(i as int);
        let ghost q = o.take(i + 1);
        proof {
            assert(q =~= p.push(o[i as int]));
            assert(o[i as int] == items@[i as int]@);
            assert(!p.contains(o[i as int]));
            lemma_push_set(p, o[i as int]);
        }
        if b.contains(items[i].as_str()) {
            assert(q.to_set().intersect(b@) =~= p.to_set().intersect(b@).insert(o[i as int]));
            count += 1;
        } else {
            assert(q.to_set().intersect(b@) =~= p.to_set().intersect(b@));
        }
        i += 1;
    }
    assert(o.take(o.len() as int) =~= o);
    assert(o.to_set() =~= a@);
    count
}

proof fn lemma_push_set(p: Seq<Seq<char>>, x: Seq<char>)
    ensures
        p.push(x).to_set() == p.to_set().insert(x),
{
    let q = p.push(x);
    assert forall|y: Seq<char>| #[trigger] q.to_set().contains(y) <==> p.to_set().insert(x).contains(y) by {
        if p.contains(y) {
            let i = choose|i: int| 0 <= i < p.len() && p[i] == y;
            assert(q[i] == y);
        }
        if q.contains(y) {
            let i = choose|i: int| 0 <= i < q.len() && q[i] == y;
            if i < p.len() {
                assert(p[i] == y);
            }
        }
        assert(q[p.len() as int] == x);
    }
    assert(q.to_set() =~= p.to_set().insert(x));
}

/// The shared and the joint number of tokens, as the lexical part of a
/// ranking needs them.
pub fn token_overlap(a: &Vec<String>, b: &Vec<String>) -> (r: (u128, u128))
    ensures
        r.0 == overlap_of(text_views(a@), text_views(b@)).0,
        r.1 == overlap_of(text_views(a@), text_views(b@)).1,
{
    let x = TextSet::of(a.as_slice());
    let y = TextSet::of(b.as_slice());
    let both: usize = shared(&x, &y);
    let (nx, ny) = (x.len(), y.len());
    proof {
        vstd::set_lib::lemma_set_intersect_union_lens(x@, y@);
        vstd::set_lib::lemma_len_intersect(x@, y@);
    }
    (both as u128, nx as u128 + ny as u128 - both as u128)
}

/// How often a token occurs.
pub open spec fn occurrences(ts: Seq<Seq<char>>, t: Seq<char>) -> nat
    decreases ts.len(),
{
    if ts.len() == 0 {
        0
    } else {
        occurrences(ts.drop_last(), t) + if ts.last() == t {
            1nat
        } else {
            0nat
        }
    }
}

fn count_in(ts: &Vec<String>, t: &str) -> (r: u64)
    ensures
        r == occurrences(text_views(ts@), t@),
{
    let ghost all = text_views(ts@);
    let mut n: u64 = 0;
    let mut i: usize = 0;
    while i < ts.len()
        invariant
            i <= ts@.len(),
            all == text_views(ts@),
            n <= i,
            n == occurrences(all.take(i as int), t@),
        decreases ts.len() - i,
    {
        assert(all.take(i + 1).drop_last() =~= all.take(i as int));
        assert(all.take(i + 1).last() == ts@[i as int]@);
        if str_eq(ts[i].as_str(), t) {
            n += 1;
        }
        i += 1;
    }
    assert(all.take(all.len() as int) =~= all);
    n
}

/// A document: its handle and its tokens.
#[verifier::ext_equal]
pub struct DocV {
    pub handle: Seq<char>,
    pub tokens: Seq<Seq<char>>,
}

/// A document of the lexical index.
#[derive(Debug)]
pub struct Doc {
    pub handle: String,
    pub tokens: Vec<String>,
}

impl DeepView for Doc {
    type V = DocV;

    open spec fn deep_view(&self) -> DocV {
        DocV { handle: self.handle@, tokens: text_views(self.tokens@) }
    }
}

/// In how many documents a token occurs.
pub open spec fn docs_with(docs: Seq<DocV>, t: Seq<char>) -> nat
    decreases docs.len(),
{
    if docs.len() == 0 {
        0
    } else {
        docs_with(docs.drop_last(), t) + if docs.last().tokens.contains(t) {
            1nat
        } else {
            0nat
        }
    }
}

/// A token occurs as often as it stands in a list.
pub proof fn lemma_occurrences(ts: Seq<Seq<char>>, t: Seq<char>)
    ensures
        occurrences(ts, t) == ts.filter(|x: Seq<char>| x == t).len(),
        occurrences(ts, t) > 0 <==> ts.contains(t),
    decreases ts.len(),
{
    reveal(Seq::filter);
    if ts.len() > 0 {
        let d = ts.drop_last();
        lemma_occurrences(d, t);
        assert(ts[ts.len() - 1] == ts.last());
        if d.contains(t) {
            assert(ts[d.index_of(t)] == t);
        }
        if ts.contains(t) && ts.last() != t {
            assert(d[ts.index_of(t)] == t);
        }
    }
}

/// A token occurs in as many documents as hold it.
pub proof fn lemma_docs_with(docs: Seq<DocV>, t: Seq<char>)
    ensures
        docs_with(docs, t) == docs.filter(|d: DocV| d.tokens.contains(t)).len(),
    decreases docs.len(),
{
    reveal(Seq::filter);
    if docs.len() > 0 {
        lemma_docs_with(docs.drop_last(), t);
    }
}

/// The tokens of a text are the runs of alphanumeric characters of its lower-case form: every
/// run with something else or an end at either side is one, and each is a run of it.
pub proof fn lemma_tokens(s: Seq<char>, i: int, j: int, k: int)
    requires
        0 <= i < j <= lower_of(s).len(),
    ensures
        ({
            let low = lower_of(s);
            &&& (forall|m: int| i <= m < j ==> alphanumeric_of(#[trigger] low[m])) && (i == 0
                || !alphanumeric_of(low[i - 1])) && (j == low.len() || !alphanumeric_of(low[j]))
                ==> tokens_in(s).contains(low.subrange(i, j))
            &&& 0 <= k < tokens_in(s).len() ==> tokens_in(s)[k].len() > 0 && exists|f: int|
                #![trigger occurs_at(low, tokens_in(s)[k], f)]
                occurs_at(low, tokens_in(s)[k], f) && forall|m: int|
                    f <= m < f + tokens_in(s)[k].len() ==> alphanumeric_of(#[trigger] low[m])
        }),
{
    let low = lower_of(s);
    let marks = cuts(low);
    let ps = pieces(low, marks);
    if (forall|m: int| i <= m < j ==> alphanumeric_of(#[trigger] low[m])) && (i == 0
        || !alphanumeric_of(low[i - 1])) && (j == low.len() || !alphanumeric_of(low[j])) {
        assert forall|m: int| i <= m < j implies !#[trigger] marks[m] by {
            assert(alphanumeric_of(low[m]));
        }
        lemma_piece(low, marks, i, j);
        lemma_nonempty(ps, low.subrange(i, j));
    }
    if 0 <= k < tokens_in(s).len() {
        let t = tokens_in(s)[k];
        lemma_nonempty(ps, t);
        assert(nonempty(ps).contains(t));
        let n = ps.index_of(t);
        lemma_pieces_within(low, marks, n);
        let f = choose|f: int|
            #![trigger occurs_at(low, ps[n], f)]
            occurs_at(low, ps[n], f) && (forall|m: int|
                f <= m < f + ps[n].len() ==> !#[trigger] marks[m]);
        assert(occurs_at(low, t, f));
        assert forall|m: int| f <= m < f + t.len() implies alphanumeric_of(#[trigger] low[m]) by {
            assert(!marks[m]);
        }
    }
}

proof fn lemma_nonempty(ps: Seq<Seq<char>>, t: Seq<char>)
    ensures
        nonempty(ps).contains(t) <==> ps.contains(t) && t.len() > 0,
    decreases ps.len(),
{
    if ps.len() > 0 {
        let d = ps.drop_last();
        let x = ps.last();
        lemma_nonempty(d, t);
        assert(ps[ps.len() - 1] == x);
        let before = nonempty(d);
        let all = nonempty(ps);
        if x.len() > 0 {
            assert(all[before.len() as int] == x);
        }
        if before.contains(t) {
            assert(all[before.index_of(t)] == t);
        }
        if all.contains(t) && !before.contains(t) {
            let i = all.index_of(t);
            if i < before.len() {
                assert(before[i] == t);
            }
        }
        if d.contains(t) {
            assert(ps[d.index_of(t)] == t);
        }
        if ps.contains(t) && t != x {
            assert(d[ps.index_of(t)] == t);
        }
    }
}

/// How many tokens the documents hold together.
pub open spec fn total_tokens(docs: Seq<DocV>) -> nat
    decreases docs.len(),
{
    if docs.len() == 0 {
        0
    } else {
        total_tokens(docs.drop_last()) + docs.last().tokens.len()
    }
}

/// What a score needs of one query token that a document holds: how often it
/// occurs there, and in how many documents.
#[derive(Clone, Copy, Debug, PartialEq, Eq, Structural)]
pub struct TermCount {
    pub in_doc: u64,
    pub docs: u64,
}

/// The counts of the query tokens that a document holds, in query order.
pub open spec fn term_counts(docs: Seq<DocV>, doc: DocV, query: Seq<Seq<char>>) -> Seq<TermCount>
    decreases query.len(),
{
    if query.len() == 0 {
        Seq::empty()
    } else {
        let before = term_counts(docs, doc, query.drop_last());
        let q = query.last();
        if occurrences(doc.tokens, q) > 0 {
            before.push(
                TermCount {
                    in_doc: occurrences(doc.tokens, q) as u64,
                    docs: docs_with(docs, q) as u64,
                },
            )
        } else {
            before
        }
    }
}

/// The documents of a list.
pub open spec fn doc_views(ds: Seq<Doc>) -> Seq<DocV> {
    Seq::new(ds.len(), |i: int| ds[i].deep_view())
}

/// The encoded form of a document: its tokens with spaces between them.
pub open spec fn doc_value(d: DocV) -> CborV {
    map_value(
        seq![("handle"@, CborV::Text(d.handle)), ("text"@, CborV::Text(joined(d.tokens, " "@)))],
    )
}

/// The snapshot of the lexical index.
pub open spec fn bm25_image(docs: Seq<DocV>) -> CborV {
    map_value(seq![("items"@, CborV::Array(Seq::new(docs.len(), |i: int| doc_value(docs[i]))))])
}

/// The handle and text that an item says.
pub open spec fn item_of(v: CborV) -> Result<(Seq<char>, Seq<char>), ErrV> {
    if v.text_field("handle"@) is None {
        Err((ErrCode::Internal, missing_text("handle"@)))
    } else if v.text_field("text"@) is None {
        Err((ErrCode::Internal, missing_text("text"@)))
    } else {
        Ok((v.text_field("handle"@)->0, v.text_field("text"@)->0))
    }
}

/// The handles and texts that items say, up to the first that cannot be read.
pub open spec fn items_in(items: Seq<CborV>) -> (Seq<(Seq<char>, Seq<char>)>, Option<ErrV>)
    decreases items.len(),
{
    if items.len() == 0 {
        (Seq::empty(), None)
    } else {
        let (xs, e) = items_in(items.drop_last());
        if e is Some {
            (xs, e)
        } else {
            match item_of(items.last()) {
                Ok(x) => (xs.push(x), None),
                Err(x) => (xs, Some(x)),
            }
        }
    }
}

/// The items of a snapshot.
pub open spec fn items_of(v: CborV) -> (Seq<(Seq<char>, Seq<char>)>, Option<ErrV>) {
    match v.array_field("items"@) {
        Some(a) => items_in(a),
        None => (Seq::empty(), None),
    }
}

pub(crate) proof fn lemma_items_stop(items: Seq<CborV>, n: int)
    requires
        0 <= n <= items.len(),
        items_in(items.take(n)).1 is Some,
    ensures
        items_in(items) == items_in(items.take(n)),
    decreases items.len(),
{
    if n < items.len() {
        assert(items.drop_last().take(n) =~= items.take(n));
        lemma_items_stop(items.drop_last(), n);
    } else {
        assert(items.take(n) =~= items);
    }
}

/// Handles and texts of a list.
pub open spec fn item_views(s: Seq<(String, String)>) -> Seq<(Seq<char>, Seq<char>)> {
    Seq::new(s.len(), |i: int| (s[i].0@, s[i].1@))
}

/// Reads the items of a snapshot, up to the first that cannot be read.
pub fn read_items(state: &Cbor) -> (r: (Vec<(String, String)>, UcResult<()>))
    ensures
        item_views(r.0@) == items_of(state@).0,
        agrees(r.1, done(items_of(state@).1)),
{
    let mut out: Vec<(String, String)> = Vec::new();
    assert(item_views(out@) =~= Seq::<(Seq<char>, Seq<char>)>::empty());
    if let Some(arr) = state.opt_array("items") {
        let ghost all = views(arr@);
        let mut i: usize = 0;
        while i < arr.len()
            invariant
                i <= arr@.len(),
                all == views(arr@),
                items_of(state@) == items_in(all),
                items_in(all.take(i as int)) == (item_views(out@), None::<ErrV>),
            decreases arr.len() - i,
        {
            proof {
                assert(all.take(i + 1).drop_last() =~= all.take(i as int));
                assert(all.take(i + 1).last() == arr@[i as int]@);
                if items_in(all.take(i + 1)).1 is Some {
                    lemma_items_stop(all, i + 1);
                }
            }
            let ghost before = item_views(out@);
            let h = match arr[i].req_str("handle") {
                Ok(x) => x,
                Err(e) => {
                    return (out, Err(e));
                },
            };
            let t = match arr[i].req_str("text") {
                Ok(x) => x,
                Err(e) => {
                    return (out, Err(e));
                },
            };
            out.push((h, t));
            assert(item_views(out@) =~= before.push((h@, t@)));
            i += 1;
        }
        assert(all.take(all.len() as int) =~= all);
    }
    (out, Ok(()))
}

/// The lexical index: documents with their tokens, in how many documents each
/// token occurs, and how many tokens there are in all.
#[derive(Debug)]
pub struct Bm25Cell {
    pub id: CellId,
    docs: Vec<Doc>,
    doc_freq: TextMap<u128>,
    total_len: u128,
}

impl View for Bm25Cell {
    type V = Seq<DocV>;

    closed spec fn view(&self) -> Seq<DocV> {
        doc_views(self.docs@)
    }
}

impl Bm25Cell {
    /// The id of the cell.
    pub closed spec fn ident(&self) -> CellId {
        self.id
    }

    /// The counts are those of the documents.
    pub closed spec fn counted(&self) -> bool {
        &&& self.total_len == total_tokens(self@)
        &&& forall|t: Seq<char>|
            #![trigger self.doc_freq@.contains_key(t)]
            #![trigger docs_with(self@, t)]
            (self.doc_freq@.contains_key(t) <==> docs_with(self@, t) > 0) && (
            self.doc_freq@.contains_key(t) ==> self.doc_freq@[t] == docs_with(self@, t))
    }

    pub fn new(id: CellId) -> (r: Self)
        ensures
            r.ident() == id,
            r@ == Seq::<DocV>::empty(),
            r.counted(),
    {
        let r = Bm25Cell { id, docs: Vec::new(), doc_freq: TextMap::new(), total_len: 0 };
        assert(r@ =~= Seq::<DocV>::empty());
        r
    }

    /// Adds a document.
    pub fn add(&mut self, handle: String, text: &str)
        requires
            old(self).counted(),
        ensures
            final(self).ident() == old(self).ident(),
            final(self).counted(),
            final(self)@ == old(self)@.push(DocV { handle: handle@, tokens: tokens_in(text@) }),
    {
        let tokens = tokenize(text);
        self.add_tokens(handle, tokens);
    }

    /// Adds a document that is cut into tokens already.
    pub fn add_tokens(&mut self, handle: String, tokens: Vec<String>)
        requires
            old(self).counted(),
        ensures
            final(self).ident() == old(self).ident(),
            final(self).counted(),
            final(self)@ == old(self)@.push(
                DocV { handle: handle@, tokens: text_views(tokens@) },
            ),
    {
        let ghost was = self@;
        assert(was.len() == self.docs.len());
        let ghost df = self.doc_freq@;
        let ghost tv = text_views(tokens@);
        let uniq = TextSet::of(tokens.as_slice());
        let items = uniq.to_vec();
        let ghost o = text_order(uniq@);
        proof {
            lemma_finite_listed(uniq@);
            lemma_listed_finite(o, uniq@);
        }
        let mut i: usize = 0;
        while i < items.len()
            invariant
                i <= items@.len(),
                text_views(items@) == o,
                o.no_duplicates(),
                self@ == was,
                self.ident() == old(self).ident(),
                self.total_len == total_tokens(was),
                was.len() <= usize::MAX,
                forall|t: Seq<char>|
                    #[trigger] df.contains_key(t) ==> df[t] == docs_with(was, t),
                forall|t: Seq<char>|
                    #[trigger] self.doc_freq@.contains_key(t) <==> df.contains_key(t) || o.take(
                        i as int,
                    ).contains(t),
                forall|t: Seq<char>|
                    #[trigger] self.doc_freq@.contains_key(t) ==> self.doc_freq@[t] == (
                    if df.contains_key(t) {
                        df[t] as int
                    } else {
                        0
                    }) + (if o.take(i as int).contains(t) {
                        1int
                    } else {
                        0int
                    }),
            decreases items.len() - i,
        {
            let ghost p = o.take(i as int);
            let ghost q = o.take(i + 1);
            let ghost before = self.doc_freq@;
            let ghost x = o[i as int];
            proof {
                assert(q =~= p.push(x));
                assert(!p.contains(x));
                assert(x == items@[i as int]@);
                lemma_docs_with_bound(was, x);
                assert forall|t: Seq<char>| #[trigger] q.contains(t) <==> p.contains(t) || t == x by {
                    lemma_push_set(p, x);
                    assert(q.to_set().contains(t) <==> p.to_set().insert(x).contains(t));
                }
            }
            let n: u128 = match self.doc_freq.get(items[i].as_str()) {
                Some(k) => *k,
                None => 0,
            };
            self.doc_freq.insert(items[i].clone(), n + 1);
            i += 1;
        }
        proof {
            assert(o.take(o.len() as int) =~= o);
            let d = DocV { handle: handle@, tokens: tv };
            let now = was.push(d);
            assert(now.drop_last() =~= was);
            assert forall|t: Seq<char>| docs_with(now, t) == docs_with(was, t) + (if tv.contains(t) {
                1int
            } else {
                0int
            }) && (o.contains(t) <==> tv.contains(t)) by {
                assert(uniq@.contains(t) <==> o.contains(t));
                assert(tv.to_set().contains(t) <==> tv.contains(t));
            }
        }
        proof {
            assert forall|i: int| 0 <= i < was.len() implies (#[trigger] was[i]).tokens.len()
                <= usize::MAX by {
                assert(was[i] == self.docs@[i].deep_view());
                assert(was[i].tokens.len() == self.docs@[i].tokens.len());
            }
            lemma_total_bound(was);
        }
        self.total_len = self.total_len + tokens.len() as u128;
        let doc = Doc { handle, tokens };
        let ghost dv = doc.deep_view();
        self.docs.push(doc);
        assert(self@ =~= was.push(dv));
    }

    /// How many documents there are.
    pub fn len(&self) -> (r: usize)
        ensures
            r == self@.len(),
    {
        self.docs.len()
    }

    /// How many tokens there are in all.
    pub fn total_len(&self) -> (r: u128)
        requires
            self.counted(),
        ensures
            r == total_tokens(self@),
    {
        self.total_len
    }

    /// The handle and the number of tokens of a document.
    pub fn doc(&self, i: usize) -> (r: (&str, usize))
        requires
            i < self@.len(),
        ensures
            r.0@ == self@[i as int].handle,
            r.1 == self@[i as int].tokens.len(),
    {
        (self.docs[i].handle.as_str(), self.docs[i].tokens.len())
    }

    /// What the score of a document for a query is made of.
    pub fn counts(&self, i: usize, query: &Vec<String>) -> (r: Vec<TermCount>)
        requires
            self.counted(),
            i < self@.len(),
        ensures
            r@ == term_counts(self@, self@[i as int], text_views(query@)),
    {
        let ghost qs = text_views(query@);
        let mut out: Vec<TermCount> = Vec::new();
        assert(self@.len() == self.docs.len());
        let mut k: usize = 0;
        while k < query.len()
            invariant
                k <= query@.len(),
                qs == text_views(query@),
                self.counted(),
                i < self@.len() <= usize::MAX,
                out@ == term_counts(self@, self@[i as int], qs.take(k as int)),
            decreases query.len() - k,
        {
            assert(qs.take(k + 1).drop_last() =~= qs.take(k as int));
            assert(qs.take(k + 1).last() == query@[k as int]@);
            let n: u64 = count_in(&self.docs[i].tokens, query[k].as_str());
            if n > 0 {
                let df: u128 = match self.doc_freq.get(query[k].as_str()) {
                    Some(x) => *x,
                    None => 0,
                };
                assert(df == docs_with(self@, query@[k as int]@));
                proof {
                    lemma_docs_with_bound(self@, query@[k as int]@);
                }
                out.push(TermCount { in_doc: n, docs: df as u64 });
            }
            k += 1;
        }
        assert(qs.take(qs.len() as int) =~= qs);
        out
    }

    pub fn snapshot_state(&self) -> (r: Cbor)
        ensures
            r@ == bm25_image(self@),
    {
        let ghost want = Seq::new(self@.len(), |i: int| doc_value(self@[i]));
        let mut items: Vec<Cbor> = Vec::new();
        let mut i: usize = 0;
        while i < self.docs.len()
            invariant
                i <= self.docs@.len(),
                want == Seq::new(self@.len(), |i: int| doc_value(self@[i])),
                views(items@) =~= want.take(i as int),
            decreases self.docs.len() - i,
        {
            let ghost before = views(items@);
            let d = &self.docs[i];
            let row = Cbor::map2(
                "handle",
                Cbor::t(d.handle.as_str()),
                "text",
                Cbor::t(join_texts(d.tokens.as_slice(), " ").as_str()),
            );
            assert(row@ == doc_value(self@[i as int]));
            items.push(row);
            assert(views(items@) =~= before.push(row@));
            i += 1;
        }
        assert(want.take(want.len() as int) =~= want);
        Cbor::map1("items", Cbor::arr(items))
    }
}

proof fn lemma_docs_with_bound(docs: Seq<DocV>, t: Seq<char>)
    ensures
        docs_with(docs, t) <= docs.len(),
    decreases docs.len(),
{
    if docs.len() > 0 {
        lemma_docs_with_bound(docs.drop_last(), t);
    }
}

proof fn lemma_total_bound(docs: Seq<DocV>)
    requires
        docs.len() <= usize::MAX,
        forall|i: int| 0 <= i < docs.len() ==> (#[trigger] docs[i]).tokens.len() <= usize::MAX,
    ensures
        total_tokens(docs) <= docs.len() * usize::MAX,
        total_tokens(docs) + usize::MAX <= u128::MAX,
    decreases docs.len(),
{
    let n = docs.len() as int;
    let m = usize::MAX as int;
    if n > 0 {
        let front = docs.drop_last();
        assert forall|i: int| 0 <= i < front.len() implies (#[trigger] front[i]).tokens.len()
            <= usize::MAX by {
            assert(front[i] == docs[i]);
        }
        assert(docs[n - 1] == docs.last());
        lemma_total_bound(front);
        assert((n - 1) * m + m == n * m) by (nonlinear_arith);
    }
    assert(n * m + m <= 0xffff_ffff_ffff_ffff * 0x1_0000_0000_0000_0000) by (nonlinear_arith)
        requires
            0 <= n <= m <= 0xffff_ffff_ffff_ffff,
    ;
}

/// A ranked hit: a handle and the bit pattern of its score.
pub open spec fn hit_value(handle: Seq<char>, score: u64) -> CborV {
    map_value(seq![("handle"@, CborV::Text(handle)), ("score"@, CborV::F64(score))])
}

/// The answer that lists ranked hits under a name.
pub fn hits_reply(name: &str, hits: &Vec<(u64, String)>) -> (r: Cbor)
    ensures
        r@ == map_value(
            seq![
                (
                    name@,
                    CborV::Array(
                        Seq::new(hits@.len(), |i: int| hit_value(hits@[i].1@, hits@[i].0)),
                    ),
                ),
            ],
        ),
{
    let ghost want = Seq::new(hits@.len(), |i: int| hit_value(hits@[i].1@, hits@[i].0));
    let mut items: Vec<Cbor> = Vec::new();
    let mut i: usize = 0;
    while i < hits.len()
        invariant
            i <= hits@.len(),
            want == Seq::new(hits@.len(), |i: int| hit_value(hits@[i].1@, hits@[i].0)),
            views(items@) =~= want.take(i as int),
        decreases hits.len() - i,
    {
        let ghost before = views(items@);
        let row = Cbor::map2("handle", Cbor::t(hits[i].1.as_str()), "score", Cbor::F64(hits[i].0));
        items.push(row);
        assert(views(items@) =~= before.push(row@));
        i += 1;
    }
    assert(want.take(want.len() as int) =~= want);
    Cbor::map1(name, Cbor::arr(items))
}

/// The snapshot of a vector index: its dimension, its seed, and its items in
/// the order of insertion, from which the index is built again.
pub open spec fn vector_image(dim: u64, seed: u64, items: Seq<(Seq<char>, Seq<char>)>) -> CborV {
    map_value(
        seq![
            ("dim"@, CborV::U64(dim)),
            ("seed"@, CborV::U64(seed)),
            (
                "items"@,
                CborV::Array(
                    Seq::new(
                        items.len(),
                        |i: int|
                            map_value(
                                seq![
                                    ("handle"@, CborV::Text(items[i].0)),
                                    ("text"@, CborV::Text(items[i].1)),
                                ],
                            ),
                    ),
                ),
            ),
        ],
    )
}

pub fn vector_snapshot(dim: u64, seed: u64, items: &Vec<(String, String)>) -> (r: Cbor)
    ensures
        r@ == vector_image(dim, seed, item_views(items@)),
{
    let ghost iv = item_views(items@);
    let ghost want = vector_image(dim, seed, iv)->Pairs_0[2].1->Array_0;
    let mut rows: Vec<Cbor> = Vec::new();
    let mut i: usize = 0;
    while i < items.len()
        invariant
            i <= items@.len(),
            iv == item_views(items@),
            want == vector_image(dim, seed, iv)->Pairs_0[2].1->Array_0,
            views(rows@) =~= want.take(i as int),
        decreases items.len() - i,
    {
        let ghost before = views(rows@);
        let row = Cbor::map2(
            "handle",
            Cbor::t(items[i].0.as_str()),
            "text",
            Cbor::t(items[i].1.as_str()),
        );
        rows.push(row);
        assert(views(rows@) =~= before.push(row@));
        i += 1;
    }
    assert(want.take(want.len() as int) =~= want);
    Cbor::map3("dim", Cbor::U64(dim), "seed", Cbor::U64(seed), "items", Cbor::arr(rows))
}

/// The items of a vector snapshot are those it was made of, so an index built
/// from them in order is the one that was saved.
pub proof fn lemma_vector_items_back(dim: u64, seed: u64, items: Seq<(Seq<char>, Seq<char>)>)
    ensures
        items_of(vector_image(dim, seed, items)) == (items, None::<ErrV>),
        vector_image(dim, seed, items).u64_field("dim"@) == Some(dim),
        vector_image(dim, seed, items).u64_field("seed"@) == Some(seed),
{
    let v = vector_image(dim, seed, items);
    let m = v->Pairs_0;
    reveal_strlit("dim");
    reveal_strlit("seed");
    reveal_strlit("items");
    assert("dim"@.len() == 3);
    assert("seed"@.len() == 4);
    assert("items"@.len() == 5);
    reveal_with_fuel(lookup_from, 4);
    assert(m[0].0 == CborV::Text("dim"@));
    assert(m[1].0 == CborV::Text("seed"@));
    assert(m[2].0 == CborV::Text("items"@));
    assert(v.field("dim"@) == Some(CborV::U64(dim)));
    assert(v.field("seed"@) == Some(CborV::U64(seed)));
    let a = m[2].1->Array_0;
    assert(v.field("items"@) == Some(CborV::Array(a)));
    lemma_rows_back(items, a);
}

proof fn lemma_rows_back(items: Seq<(Seq<char>, Seq<char>)>, a: Seq<CborV>)
    requires
        a.len() == items.len(),
        forall|i: int|
            0 <= i < a.len() ==> #[trigger] a[i] == map_value(
                seq![("handle"@, CborV::Text(items[i].0)), ("text"@, CborV::Text(items[i].1))],
            ),
    ensures
        items_in(a) == (items, None::<ErrV>),
    decreases a.len(),
{
    if a.len() > 0 {
        let n = a.len() - 1;
        lemma_rows_back(items.drop_last(), a.drop_last());
        let v = a[n];
        let m = v->Pairs_0;
        reveal_strlit("handle");
        reveal_strlit("text");
        assert("handle"@.len() == 6);
        assert("text"@.len() == 4);
        reveal_with_fuel(lookup_from, 3);
        assert(m[0].0 == CborV::Text("handle"@));
        assert(m[1].0 == CborV::Text("text"@));
        assert(v.field("handle"@) == Some(CborV::Text(items[n].0)));
        assert(v.field("text"@) == Some(CborV::Text(items[n].1)));
        assert(items.drop_last().push(items.last()) =~= items);
    } else {
        assert(items =~= Seq::<(Seq<char>, Seq<char>)>::empty());
    }
}

/// Where a document with score `x` goes among ranked ones, from `i` on: ahead of
/// the first with a lower score.
pub open spec fn doc_slot(scores: Seq<u64>, ranked: Seq<int>, x: u64, i: int) -> int
    decreases ranked.len() - i,
{
    if i < 0 || i >= ranked.len() || below(scores[ranked[i]], x) {
        i
    } else {
        doc_slot(scores, ranked, x, i + 1)
    }
}

/// The documents among the first `n` whose score is above zero: the highest score
/// first, and of two with one score the one that was added first.
pub open spec fn ranked_docs(scores: Seq<u64>, n: nat) -> Seq<int>
    decreases n,
{
    if n == 0 {
        Seq::empty()
    } else {
        let before = ranked_docs(scores, (n - 1) as nat);
        let x = scores[n - 1];
        if below(0, x) {
            before.insert(doc_slot(scores, before, x, 0), n - 1)
        } else {
            before
        }
    }
}

/// The best `k` documents by their scores, the best first, each by its handle and
/// the bit pattern of its score.
pub open spec fn best_docs(docs: Seq<DocV>, scores: Seq<u64>, k: nat) -> Seq<(u64, Seq<char>)> {
    let all = ranked_docs(scores, scores.len());
    Seq::new(
        if all.len() <= k {
            all.len()
        } else {
            k
        },
        |i: int| (scores[all[i]], docs[all[i]].handle),
    )
}

proof fn lemma_doc_slot(scores: Seq<u64>, ranked: Seq<int>, x: u64, i: int)
    requires
        0 <= i <= ranked.len(),
        forall|j: int| 0 <= j < i ==> !below(scores[#[trigger] ranked[j]], x),
    ensures
        i <= doc_slot(scores, ranked, x, i) <= ranked.len(),
        forall|j: int|
            0 <= j < doc_slot(scores, ranked, x, i) ==> !below(scores[#[trigger] ranked[j]], x),
        doc_slot(scores, ranked, x, i) < ranked.len() ==> below(
            scores[ranked[doc_slot(scores, ranked, x, i)]],
            x,
        ),
    decreases ranked.len() - i,
{
    if i < ranked.len() && !below(scores[ranked[i]], x) {
        lemma_doc_slot(scores, ranked, x, i + 1);
    }
}

/// One document comes before another: its score is higher, or it is as high and
/// the document was added before.
pub open spec fn doc_ahead(scores: Seq<u64>, a: int, b: int) -> bool {
    below(scores[b], scores[a]) || (!below(scores[a], scores[b]) && a < b)
}

/// The ranked documents are those whose score is above zero, each before all that
/// it comes before.
pub proof fn lemma_ranked_docs(scores: Seq<u64>, n: nat)
    requires
        n <= scores.len(),
    ensures
        ({
            let r = ranked_docs(scores, n);
            &&& forall|d: int| #[trigger] r.contains(d) <==> 0 <= d < n && below(0, scores[d])
            &&& forall|i: int, j: int|
                0 <= i < j < r.len() ==> doc_ahead(scores, #[trigger] r[i], #[trigger] r[j])
        }),
    decreases n,
{
    if n > 0 {
        let before = ranked_docs(scores, (n - 1) as nat);
        let r = ranked_docs(scores, n);
        let x = scores[n - 1];
        lemma_ranked_docs(scores, (n - 1) as nat);
        if below(0, x) {
            let p = doc_slot(scores, before, x, 0);
            lemma_doc_slot(scores, before, x, 0);
            assert forall|j: int| 0 <= j < before.len() implies 0 <= #[trigger] before[j] < n - 1
                && below(0, scores[before[j]]) by {
                assert(before.contains(before[j]));
            }
            assert forall|d: int| #[trigger] r.contains(d) <==> 0 <= d < n && below(0, scores[d]) by {
                if before.contains(d) {
                    let j = before.index_of(d);
                    assert(before[j] == d);
                    assert(r[if j < p {
                        j
                    } else {
                        j + 1
                    }] == d);
                }
                assert(r[p] == n - 1);
                if r.contains(d) && d != n - 1 {
                    let j = r.index_of(d);
                    assert(r[j] == d);
                    assert(before[if j < p {
                        j
                    } else {
                        j - 1
                    }] == d);
                }
            }
            assert forall|i: int, j: int| 0 <= i < j < r.len() implies doc_ahead(
                scores,
                #[trigger] r[i],
                #[trigger] r[j],
            ) by {
                let a = if i < p {
                    i
                } else {
                    i - 1
                };
                let b = if j < p {
                    j
                } else {
                    j - 1
                };
                if i != p && j != p {
                    assert(r[i] == before[a] && r[j] == before[b]);
                } else if i == p {
                    assert(r[j] == before[b]);
                    assert(below(scores[before[p]], x));
                    if b > p {
                        assert(doc_ahead(scores, before[p], before[b]));
                    }
                } else {
                    assert(r[i] == before[a]);
                }
            }
        }
    }
}

/// A search gives as many of the ranked documents as were asked for, from the best on, each
/// with its score and its handle.
pub proof fn lemma_best_docs(docs: Seq<DocV>, scores: Seq<u64>, k: nat, i: int)
    requires
        scores.len() == docs.len(),
    ensures
        ({
            let all = ranked_docs(scores, scores.len());
            let r = best_docs(docs, scores, k);
            &&& r.len() <= k && r.len() <= all.len()
            &&& r.len() == k || r.len() == all.len()
            &&& 0 <= i < r.len() ==> r[i].0 == scores[all[i]] && r[i].1 == docs[all[i]].handle
        }),
{
}

/// The documents that items give.
pub open spec fn docs_in(items: Seq<(Seq<char>, Seq<char>)>) -> Seq<DocV> {
    Seq::new(items.len(), |i: int| DocV { handle: items[i].0, tokens: tokens_in(items[i].1) })
}

impl Bm25Cell {
    /// The best `k` documents, given the bit pattern of the score of each.
    pub fn best(&self, scores: &Vec<u64>, k: usize) -> (r: Vec<(u64, String)>)
        requires
            scores@.len() == self@.len(),
        ensures
            Seq::new(r@.len(), |i: int| (r@[i].0, r@[i].1@)) == best_docs(
                self@,
                scores@,
                k as nat,
            ),
    {
        let mut ranked: Vec<usize> = Vec::new();
        let mut i: usize = 0;
        assert(places(ranked@) =~= ranked_docs(scores@, 0));
        while i < scores.len()
            invariant
                i <= scores@.len(),
                places(ranked@) == ranked_docs(scores@, i as nat),
                forall|j: int| 0 <= j < ranked@.len() ==> (#[trigger] ranked@[j]) < i,
            decreases scores.len() - i,
        {
            if less(0, scores[i]) {
                let ghost before = places(ranked@);
                let mut p: usize = 0;
                while p < ranked.len() && !less(scores[ranked[p]], scores[i])
                    invariant
                        p <= ranked@.len(),
                        i < scores@.len(),
                        before == places(ranked@),
                        forall|j: int| 0 <= j < ranked@.len() ==> (#[trigger] ranked@[j]) < i,
                        doc_slot(scores@, before, scores@[i as int], 0) == doc_slot(
                            scores@,
                            before,
                            scores@[i as int],
                            p as int,
                        ),
                    decreases ranked.len() - p,
                {
                    assert(before[p as int] == ranked@[p as int]);
                    p += 1;
                }
                assert(p < ranked@.len() ==> before[p as int] == ranked@[p as int]);
                ranked.insert(p, i);
                assert(places(ranked@) =~= before.insert(p as int, i as int));
            }
            i += 1;
        }
        let ghost docs = self@;
        let ghost all = ranked_docs(scores@, scores@.len());
        let ghost want = best_docs(docs, scores@, k as nat);
        let mut out: Vec<(u64, String)> = Vec::new();
        let mut j: usize = 0;
        assert(ranked@.len() == all.len());
        while j < ranked.len() && j < k
            invariant
                j <= ranked@.len() == all.len(),
                j <= k,
                docs == self@,
                docs == doc_views(self.docs@),
                scores@.len() == docs.len(),
                all == ranked_docs(scores@, scores@.len()),
                places(ranked@) == all,
                forall|j: int| 0 <= j < ranked@.len() ==> (#[trigger] ranked@[j]) < scores@.len(),
                want == best_docs(docs, scores@, k as nat),
                out@.len() == j,
                forall|i: int|
                    0 <= i < j ==> (#[trigger] out@[i]).0 == want[i].0 && out@[i].1@ == want[i].1,
            decreases ranked.len() - j,
        {
            let n: usize = ranked[j];
            assert(all[j as int] == n);
            out.push((scores[n], self.docs[n].handle.as_str().to_string()));
            j += 1;
        }
        assert(Seq::new(out@.len(), |i: int| (out@[i].0, out@[i].1@)) =~= want);
        out
    }

    /// Takes the documents from a snapshot; an error where an item cannot be read.
    pub fn restore_state(&mut self, state: &Cbor) -> (r: UcResult<()>)
        ensures
            final(self).ident() == old(self).ident(),
            final(self).counted(),
            final(self)@ == docs_in(items_of(state@).0),
            agrees(r, done(items_of(state@).1)),
    {
        let (items, r) = read_items(state);
        let ghost all = item_views(items@);
        let ghost want = docs_in(all);
        let mut cell = Bm25Cell::new(self.id);
        let mut i: usize = 0;
        assert(cell@ =~= want.take(0));
        while i < items.len()
            invariant
                i <= items@.len(),
                all == item_views(items@),
                want == docs_in(all),
                cell.ident() == self.ident(),
                cell.counted(),
                cell@ == want.take(i as int),
                self.ident() == old(self).ident(),
            decreases items.len() - i,
        {
            assert(all[i as int] == (items@[i as int].0@, items@[i as int].1@));
            cell.add(items[i].0.as_str().to_string(), items[i].1.as_str());
            i += 1;
            assert(want.take(i as int) =~= want.take(i - 1).push(want[i - 1]));
        }
        assert(want.take(i as int) =~= want);
        *self = cell;
        r
    }
}

/// Places as numbers.
pub open spec fn places(s: Seq<usize>) -> Seq<int> {
    Seq::new(s.len(), |i: int| s[i] as int)
}

/// The tokens of each document are those of its text in a snapshot.
pub open spec fn joined_back(docs: Seq<DocV>) -> bool {
    forall|i: int|
        0 <= i < docs.len() ==> tokens_in(joined((#[trigger] docs[i]).tokens, " "@)) == docs[i].tokens
}

/// Documents come back from their snapshot, where the text of each has the tokens
/// that it was made of.
pub proof fn lemma_docs_back(docs: Seq<DocV>)
    requires
        joined_back(docs),
    ensures
        items_of(bm25_image(docs)).1 is None,
        docs_in(items_of(bm25_image(docs)).0) == docs,
{
    let v = bm25_image(docs);
    let items = Seq::new(docs.len(), |i: int| (docs[i].handle, joined(docs[i].tokens, " "@)));
    let a = v->Pairs_0[0].1->Array_0;
    reveal_strlit("items");
    reveal_with_fuel(lookup_from, 2);
    assert(v->Pairs_0[0].0 == CborV::Text("items"@));
    assert(v.field("items"@) == Some(CborV::Array(a)));
    lemma_rows_back(items, a);
    assert forall|i: int| 0 <= i < docs.len() implies #[trigger] docs_in(items)[i] == docs[i] by {
        assert(items[i] == (docs[i].handle, joined(docs[i].tokens, " "@)));
    }
    assert(docs_in(items) =~= docs);
}

} // verus!
