//! The warden: it holds writes against the substrate, and audits what the
//! librarian puts out.
//!
//! An audit never merely agrees: it rests on evidence that the audited output
//! does not cite, or else on a digest of the evidence that it does cite.

use vstd::prelude::*;
use crate::bytes::push_all;
use crate::cbor::{
    all_texts, dup_text, dup_texts, lemma_texts_back, lookup_from, map_value, missing_text,
    opt_text_value, text_views, texts_field, texts_value, u64_or_zero, Cbor, CborV,
};
use crate::cells::{CellBehavior, CellType};
use crate::curator::backend::{
    named_verdict, tally, DeterministicBackend, Exchange, Worker,
};
use crate::curator::frozen::{picture, FrozenPublicView};
use crate::curator::librarian::{CurationJob, CurationJobV};
use crate::curator::{
    mint, minted, ConfidenceBand, CuratorBackend, CuratorOperation, CuratorOutput, CuratorOutputV,
    CuratorPrivate, CuratorPrivateV, CuratorPublic, CuratorPublicV, SubstrateView, Verdict,
};
use crate::digest::{sha256, sha_of};
use crate::hex::{hex, hex_text};
use crate::lists::{from_list, lemma_list_back, list_in, list_values, Item};
use crate::rows::{done, keyed, record_rows, to_rows, Record};
use crate::sorting::{lemma_sorted_same, sort_texts, sorted_texts};
use crate::text::{
    cat2, cat4, chars_between, chars_of, holds, is_space, join_texts, joined, lemma_piece,
    lemma_pieces_within, lemma_trimmed_within, occurs_at, pieces, space, split_marked, starts,
    str_eq, str_starts, string_of, trim_text, trimmed,
};
use crate::textmap::{text_order, TextMap};
use crate::ulid::{draw, next_state, seeded, DetRng};
use crate::vocab::{agrees, CellId, ErrCode, ErrV, SchemaId, UcError, UcResult};
use vstd::string::StringSliceAdditionalSpecFns;
use vstd::utf8::encode_utf8;

verus! {

/// The bits of 0.93, the confidence in a flag.
pub const FLAG_CONFIDENCE: u64 = 0x3FED_C28F_5C28_F5C3;

/// What handles in a payload's texts begin with.
pub const HANDLE_PREFIXES: [&'static str; 7] = [
    "fact/",
    "blob/",
    "decision/",
    "librarian/output/",
    "warden/judgment/",
    "timeline/",
    "playbook/",
];

/// The text begins as a handle does.
pub open spec fn prefixed(t: Seq<char>) -> bool {
    ||| starts(t, "fact/"@)
    ||| starts(t, "blob/"@)
    ||| starts(t, "decision/"@)
    ||| starts(t, "librarian/output/"@)
    ||| starts(t, "warden/judgment/"@)
    ||| starts(t, "timeline/"@)
    ||| starts(t, "playbook/"@)
}

fn has_prefix(t: &str) -> (r: bool)
    ensures
        r == prefixed(t@),
{
    str_starts(t, "fact/")
        || str_starts(t, "blob/")
        || str_starts(t, "decision/")
        || str_starts(t, "librarian/output/")
        || str_starts(t, "warden/judgment/")
        || str_starts(t, "timeline/")
        || str_starts(t, "playbook/")
}

/// A character that separates words.
pub open spec fn separates(c: char) -> bool {
    is_space(c) || c == ',' || c == ';' || c == '(' || c == ')' || c == '[' || c == ']' || c == '{'
        || c == '}' || c == '"' || c == '\''
}

/// A character that is taken off both ends of a word.
pub open spec fn is_edge(c: char) -> bool {
    c == '.' || c == ':' || c == '!' || c == '?'
}

/// The word without edge characters in front.
pub open spec fn edge_front(s: Seq<char>) -> Seq<char>
    decreases s.len(),
{
    if s.len() > 0 && is_edge(s[0]) {
        edge_front(s.skip(1))
    } else {
        s
    }
}

/// The word without edge characters behind.
pub open spec fn edge_back(s: Seq<char>) -> Seq<char>
    decreases s.len(),
{
    if s.len() > 0 && is_edge(s.last()) {
        edge_back(s.drop_last())
    } else {
        s
    }
}

/// The place of the first slash from `i` on.
pub open spec fn slash_from(s: Seq<char>, i: int) -> int
    decreases s.len() - i,
{
    if i < 0 || i >= s.len() {
        0
    } else if s[i] == '/' {
        i
    } else {
        slash_from(s, i + 1)
    }
}

/// The word is a handle: it begins as one does, and something follows its first
/// slash.
pub open spec fn is_handle(t: Seq<char>) -> bool {
    prefixed(t) && t.len() > slash_from(t, 0) + 1
}

/// The words of a text.
pub open spec fn words_of(s: Seq<char>) -> Seq<Seq<char>> {
    pieces(s, Seq::new(s.len(), |i: int| separates(s[i])))
}

/// A word without its edges.
pub open spec fn core_of(w: Seq<char>) -> Seq<char> {
    edge_back(edge_front(w))
}

/// The handles among the first `n` words, behind those found so far, each once.
pub open spec fn handles_in(words: Seq<Seq<char>>, n: nat, found: Seq<Seq<char>>) -> Seq<Seq<char>>
    decreases n,
{
    if n == 0 {
        found
    } else {
        let before = handles_in(words, (n - 1) as nat, found);
        let t = core_of(words[n - 1]);
        if is_handle(t) && !before.contains(t) {
            before.push(t)
        } else {
            before
        }
    }
}

/// The handles in the first `n` texts.
pub open spec fn handles_of(texts: Seq<Seq<char>>, n: nat) -> Seq<Seq<char>>
    decreases n,
{
    if n == 0 {
        Seq::empty()
    } else {
        let words = words_of(texts[n - 1]);
        handles_in(words, words.len(), handles_of(texts, (n - 1) as nat))
    }
}

/// The handles that a payload's texts refer to, in order, each once.
pub open spec fn harvested(payload: CborV) -> Seq<Seq<char>> {
    let texts = all_texts(payload);
    handles_of(texts, texts.len())
}

fn core_word(w: &Vec<char>) -> (r: Vec<char>)
    ensures
        r@ == core_of(w@),
{
    let mut from: usize = 0;
    assert(w@.skip(0) =~= w@);
    while from < w.len() && (w[from] == '.' || w[from] == ':' || w[from] == '!' || w[from] == '?')
        invariant
            from <= w@.len(),
            edge_front(w@) == edge_front(w@.skip(from as int)),
        decreases w.len() - from,
    {
        assert(w@.skip(from as int)[0] == w@[from as int]);
        assert(w@.skip(from as int).skip(1) =~= w@.skip(from + 1));
        from += 1;
    }
    if from < w.len() {
        assert(w@.skip(from as int)[0] == w@[from as int]);
    }
    assert(edge_front(w@) == w@.skip(from as int));
    let mut to: usize = w.len();
    assert(w@.subrange(from as int, to as int) =~= w@.skip(from as int));
    while to > from && (w[to - 1] == '.' || w[to - 1] == ':' || w[to - 1] == '!' || w[to - 1]
        == '?')
        invariant
            from <= to <= w@.len(),
            core_of(w@) == edge_back(w@.subrange(from as int, to as int)),
        decreases to,
    {
        let ghost cur = w@.subrange(from as int, to as int);
        assert(cur.last() == w@[to - 1]);
        assert(cur.drop_last() =~= w@.subrange(from as int, to - 1));
        to -= 1;
    }
    if to > from {
        assert(w@.subrange(from as int, to as int).last() == w@[to - 1]);
    }
    chars_between(w.as_slice(), from, to)
}

fn first_slash(t: &Vec<char>) -> (r: usize)
    ensures
        r == slash_from(t@, 0),
        r <= t@.len(),
{
    let mut i: usize = 0;
    while i < t.len()
        invariant
            i <= t@.len(),
            slash_from(t@, 0) == slash_from(t@, i as int),
        decreases t.len() - i,
    {
        if t[i] == '/' {
            return i;
        }
        i += 1;
    }
    0
}

/// Whether a text is among those of a list.
pub fn among(hs: &Vec<String>, t: &str) -> (r: bool)
    ensures
        r == text_views(hs@).contains(t@),
{
    let ghost all = text_views(hs@);
    let mut i: usize = 0;
    while i < hs.len()
        invariant
            i <= hs@.len(),
            all == text_views(hs@),
            forall|j: int| 0 <= j < i ==> #[trigger] all[j] != t@,
        decreases hs.len() - i,
    {
        assert(all[i as int] == hs@[i as int]@);
        if str_eq(hs[i].as_str(), t) {
            return true;
        }
        i += 1;
    }
    false
}

fn harvest_text(text: &str, out: &mut Vec<String>)
    ensures
        text_views(final(out)@) == handles_in(
            words_of(text@),
            words_of(text@).len(),
            text_views(old(out)@),
        ),
{
    let ghost first = text_views(out@);
    let chars = chars_of(text);
    let mut marks: Vec<bool> = Vec::new();
    let mut i: usize = 0;
    while i < chars.len()
        invariant
            i <= chars@.len(),
            marks@.len() == i,
            forall|j: int| 0 <= j < i ==> #[trigger] marks@[j] == separates(chars@[j]),
        decreases chars.len() - i,
    {
        let c: char = chars[i];
        marks.push(
            space(c) || c == ',' || c == ';' || c == '(' || c == ')' || c == '[' || c == ']' || c
                == '{' || c == '}' || c == '"' || c == '\'',
        );
        i += 1;
    }
    assert(marks@ =~= Seq::new(text@.len(), |i: int| separates(text@[i])));
    let words = split_marked(chars.as_slice(), marks.as_slice());
    let ghost all = words_of(text@);
    let mut k: usize = 0;
    while k < words.len()
        invariant
            k <= words@.len(),
            all == crate::text::char_views(words@),
            all == words_of(text@),
            text_views(out@) == handles_in(all, k as nat, first),
        decreases words.len() - k,
    {
        assert(all[k as int] == words@[k as int]@);
        let core = core_word(&words[k]);
        let slash: usize = first_slash(&core);
        let t = string_of(core.as_slice());
        if has_prefix(t.as_str()) && core.len() > slash && core.len() - slash > 1 && !among(
            out,
            t.as_str(),
        ) {
            let ghost before = text_views(out@);
            out.push(t);
            assert(text_views(out@) =~= before.push(t@));
        }
        k += 1;
    }
}

/// The first of the handles from `i` on that the substrate does not know.
pub open spec fn first_unknown<V: SubstrateView>(view: &V, hs: Seq<Seq<char>>, i: int) -> Option<
    Seq<char>,
>
    decreases hs.len() - i,
{
    if i < 0 || i >= hs.len() {
        None
    } else if !view.known(hs[i]) {
        Some(hs[i])
    } else {
        first_unknown(view, hs, i + 1)
    }
}

fn unknown_handle<V: SubstrateView>(view: &V, hs: &Vec<String>) -> (r: Option<String>)
    ensures
        r.deep_view() == first_unknown(view, text_views(hs@), 0),
{
    let ghost all = text_views(hs@);
    let mut i: usize = 0;
    while i < hs.len()
        invariant
            i <= hs@.len(),
            all == text_views(hs@),
            first_unknown(view, all, 0) == first_unknown(view, all, i as int),
        decreases hs.len() - i,
    {
        assert(all[i as int] == hs@[i as int]@);
        if !view.handle_exists(hs[i].as_str()) {
            return Some(hs[i].as_str().to_string());
        }
        i += 1;
    }
    None
}

/// The handles of the first `n` facts that say something else.
pub open spec fn conflicts(facts: Seq<(Seq<char>, Seq<char>)>, object: Seq<char>, n: nat) -> Seq<
    Seq<char>,
>
    decreases n,
{
    if n == 0 {
        Seq::empty()
    } else if facts[n - 1].1 != object {
        conflicts(facts, object, (n - 1) as nat).push(facts[n - 1].0)
    } else {
        conflicts(facts, object, (n - 1) as nat)
    }
}

/// How a write is judged: it may not refer to handles that do not exist, nor
/// say something else of an occupied slot without declaring what it supersedes.
pub open spec fn judged<V: SubstrateView>(view: &V, payload: CborV) -> Result<(), ErrV> {
    match first_unknown(view, harvested(payload), 0) {
        Some(h) => Err(
            (ErrCode::HallucinationDetected, "payload references nonexistent handle "@ + h),
        ),
        None => match (
            payload.text_field("subject"@),
            payload.text_field("predicate"@),
            payload.text_field("object"@),
        ) {
            (Some(s), Some(p), Some(o)) => {
                let facts = view.facts(s, p);
                let other = conflicts(facts, o, facts.len());
                if payload.text_field("supersedes"@) is None && payload.text_field(
                    "supersedes_decision"@,
                ) is None && other.len() > 0 {
                    Err(
                        (
                            ErrCode::SemanticDrift,
                            "write to occupied slot ("@ + s + ", "@ + p
                                + ") conflicts with active "@ + joined(other, ", "@)
                                + " and declares no supersede"@,
                        ),
                    )
                } else {
                    Ok(())
                }
            },
            _ => Ok(()),
        },
    }
}

/// A character at which words are parted.
pub open spec fn parts(c: char) -> bool {
    is_space(c) || ",;()[]{}\"'"@.contains(c)
}

/// The stretch of a text from `i` to `j` is a word, from `f` to `t`, but for full stops,
/// colons, exclamation and question marks.
pub open spec fn framed(text: Seq<char>, i: int, j: int, f: int, t: int) -> bool {
    &&& 0 <= f <= i && j <= t <= text.len()
    &&& f == 0 || parts(text[f - 1])
    &&& t == text.len() || parts(text[t])
    &&& forall|k: int| f <= k < i ==> ".:!?"@.contains(#[trigger] text[k])
    &&& forall|k: int| j <= k < t ==> ".:!?"@.contains(#[trigger] text[k])
}

/// A handle stands in a text as a word of its own, perhaps with full stops, colons,
/// exclamation or question marks around it.
pub open spec fn cites(text: Seq<char>, h: Seq<char>, i: int) -> bool {
    &&& occurs_at(text, h, i)
    &&& forall|k: int| 0 <= k < h.len() ==> !parts(#[trigger] h[k])
    &&& h.len() > 0 && !".:!?"@.contains(h[0]) && !".:!?"@.contains(h.last())
    &&& exists|f: int, t: int| #[trigger] framed(text, i, i + h.len(), f, t)
}

/// A text is the handle of something that the substrate keeps: what kind of thing it
/// is, and something behind that.
pub open spec fn names(h: Seq<char>) -> bool {
    ||| starts(h, "fact/"@) && h.len() > 5
    ||| starts(h, "blob/"@) && h.len() > 5
    ||| starts(h, "decision/"@) && h.len() > 9
    ||| starts(h, "librarian/output/"@) && h.len() > 17
    ||| starts(h, "warden/judgment/"@) && h.len() > 16
    ||| starts(h, "timeline/"@) && h.len() > 9
    ||| starts(h, "playbook/"@) && h.len() > 9
}

proof fn lemma_parts(c: char)
    ensures
        parts(c) == separates(c),
        ".:!?"@.contains(c) == is_edge(c),
        is_edge(c) ==> !separates(c),
{
    reveal_strlit(",;()[]{}\"'");
    reveal_strlit(".:!?");
    let m = ",;()[]{}\"'"@;
    assert(m.len() == 10);
    assert(m[0] == ',' && m[1] == ';' && m[2] == '(' && m[3] == ')' && m[4] == '[' && m[5] == ']'
        && m[6] == '{' && m[7] == '}' && m[8] == '"' && m[9] == '\'');
    let e = ".:!?"@;
    assert(e.len() == 4);
    assert(e[0] == '.' && e[1] == ':' && e[2] == '!' && e[3] == '?');
}

proof fn lemma_slash_before(t: Seq<char>, i: int, k: int)
    requires
        0 <= i <= k < t.len(),
        t[k] == '/',
    ensures
        slash_from(t, i) <= k,
    decreases k - i,
{
    if t[i] != '/' {
        lemma_slash_before(t, i + 1, k);
    }
}

proof fn lemma_starts_slash(t: Seq<char>, p: Seq<char>)
    requires
        starts(t, p),
        p.len() > 0,
        p.last() == '/',
        t.len() > p.len(),
    ensures
        t.len() > slash_from(t, 0) + 1,
{
    let k = p.len() - 1;
    assert(t.subrange(0, p.len() as int)[k] == p[k]);
    lemma_slash_before(t, 0, k);
}

proof fn lemma_names(h: Seq<char>)
    requires
        names(h),
    ensures
        is_handle(h),
{
    reveal_strlit("fact/");
    reveal_strlit("blob/");
    reveal_strlit("decision/");
    reveal_strlit("librarian/output/");
    reveal_strlit("warden/judgment/");
    reveal_strlit("timeline/");
    reveal_strlit("playbook/");
    if starts(h, "fact/"@) && h.len() > 5 {
        assert("fact/"@.len() == 5 && "fact/"@[4] == '/');
        lemma_starts_slash(h, "fact/"@);
    } else if starts(h, "blob/"@) && h.len() > 5 {
        assert("blob/"@.len() == 5 && "blob/"@[4] == '/');
        lemma_starts_slash(h, "blob/"@);
    } else if starts(h, "decision/"@) && h.len() > 9 {
        assert("decision/"@.len() == 9 && "decision/"@[8] == '/');
        lemma_starts_slash(h, "decision/"@);
    } else if starts(h, "librarian/output/"@) && h.len() > 17 {
        assert("librarian/output/"@.len() == 17 && "librarian/output/"@[16] == '/');
        lemma_starts_slash(h, "librarian/output/"@);
    } else if starts(h, "warden/judgment/"@) && h.len() > 16 {
        assert("warden/judgment/"@.len() == 16 && "warden/judgment/"@[15] == '/');
        lemma_starts_slash(h, "warden/judgment/"@);
    } else if starts(h, "timeline/"@) && h.len() > 9 {
        assert("timeline/"@.len() == 9 && "timeline/"@[8] == '/');
        lemma_starts_slash(h, "timeline/"@);
    } else {
        assert("playbook/"@.len() == 9 && "playbook/"@[8] == '/');
        lemma_starts_slash(h, "playbook/"@);
    }
}

proof fn lemma_edge_front(s: Seq<char>, n: int)
    requires
        0 <= n < s.len(),
        forall|k: int| 0 <= k < n ==> is_edge(#[trigger] s[k]),
        !is_edge(s[n]),
    ensures
        edge_front(s) == s.skip(n),
    decreases n,
{
    if n > 0 {
        assert(is_edge(s[0]));
        let t = s.skip(1);
        assert forall|k: int| 0 <= k < n - 1 implies is_edge(#[trigger] t[k]) by {
            assert(t[k] == s[k + 1]);
        }
        lemma_edge_front(t, n - 1);
        assert(t.skip(n - 1) =~= s.skip(n));
    } else {
        assert(s.skip(0) =~= s);
    }
}

proof fn lemma_edge_back(s: Seq<char>, n: int)
    requires
        0 < n <= s.len(),
        forall|k: int| n <= k < s.len() ==> is_edge(#[trigger] s[k]),
        !is_edge(s[n - 1]),
    ensures
        edge_back(s) == s.take(n),
    decreases s.len(),
{
    if n < s.len() {
        assert(is_edge(s[s.len() - 1]));
        let t = s.drop_last();
        assert forall|k: int| n <= k < t.len() implies is_edge(#[trigger] t[k]) by {
            assert(t[k] == s[k]);
        }
        lemma_edge_back(t, n);
        assert(t.take(n) =~= s.take(n));
    } else {
        assert(s.take(n) =~= s);
    }
}

proof fn lemma_found_stay(words: Seq<Seq<char>>, n: nat, found: Seq<Seq<char>>, h: Seq<char>)
    requires
        n <= words.len(),
        found.contains(h) || exists|k: int|
            0 <= k < n && core_of(#[trigger] words[k]) == h && is_handle(h),
    ensures
        handles_in(words, n, found).contains(h),
    decreases n,
{
    if n > 0 {
        let before = handles_in(words, (n - 1) as nat, found);
        let t = core_of(words[n - 1]);
        if t == h && is_handle(h) {
            if !before.contains(t) {
                assert(before.push(t)[before.len() as int] == h);
            }
        } else {
            lemma_found_stay(words, (n - 1) as nat, found, h);
            let i = before.index_of(h);
            assert(before.push(t)[i] == h);
        }
    }
}

proof fn lemma_texts_found(texts: Seq<Seq<char>>, n: nat, k: int, h: Seq<char>)
    requires
        0 <= k < n <= texts.len(),
        is_handle(h),
        exists|w: int| 0 <= w < words_of(texts[k]).len() && core_of(#[trigger] words_of(texts[k])[w]) == h,
    ensures
        handles_of(texts, n).contains(h),
    decreases n,
{
    let words = words_of(texts[n - 1]);
    let before = handles_of(texts, (n - 1) as nat);
    if k < n - 1 {
        lemma_texts_found(texts, (n - 1) as nat, k, h);
    }
    lemma_found_stay(words, words.len(), before, h);
}

/// Every handle that stands in a text of a payload, a key or a value at any depth, is
/// among those that are harvested from it.
pub proof fn lemma_harvest_complete(payload: CborV, text: Seq<char>, h: Seq<char>, i: int)
    requires
        all_texts(payload).contains(text),
        cites(text, h, i),
        names(h),
    ensures
        harvested(payload).contains(h),
{
    let (f, t) = choose|f: int, t: int| #[trigger] framed(text, i, i + h.len(), f, t);
    let marks = Seq::new(text.len(), |k: int| separates(text[k]));
    assert forall|k: int| f <= k < t implies !#[trigger] marks[k] by {
        lemma_parts(text[k]);
        if i <= k < i + h.len() {
            assert(h[k - i] == text.subrange(i, i + h.len())[k - i]);
            assert(!parts(h[k - i]));
        }
    }
    if f > 0 {
        lemma_parts(text[f - 1]);
    }
    if t < text.len() {
        lemma_parts(text[t]);
    }
    lemma_piece(text, marks, f, t);
    let w = text.subrange(f, t);
    let words = words_of(text);
    assert(words.contains(w));
    let d = i - f;
    assert(h == text.subrange(i, i + h.len()));
    assert forall|k: int| 0 <= k < d implies is_edge(#[trigger] w[k]) by {
        lemma_parts(text[f + k]);
        assert(w[k] == text[f + k]);
    }
    lemma_parts(h[0]);
    lemma_parts(h.last());
    assert(w[d] == h[0]);
    lemma_edge_front(w, d);
    let x = w.skip(d);
    let n = h.len() as int;
    assert forall|k: int| n <= k < x.len() implies is_edge(#[trigger] x[k]) by {
        lemma_parts(text[i + k]);
        assert(x[k] == text[i + k]);
    }
    assert(x[n - 1] == h[n - 1]);
    lemma_edge_back(x, n);
    assert(x.take(n) =~= h);
    assert(core_of(w) == h);
    lemma_names(h);
    let texts = all_texts(payload);
    let k = texts.index_of(text);
    let wi = words.index_of(w);
    assert(core_of(words_of(texts[k])[wi]) == h);
    lemma_texts_found(texts, texts.len(), k, h);
}

proof fn lemma_edges_within(s: Seq<char>)
    ensures
        exists|i: int| #[trigger] occurs_at(s, core_of(s), i),
{
    let f = edge_front(s);
    lemma_front_taken(s);
    lemma_back_taken(f);
    let i = s.len() - f.len();
    let c = core_of(s);
    assert(s.subrange(i, i + c.len()) =~= s.skip(i).take(c.len() as int));
    assert(occurs_at(s, c, i));
}

proof fn lemma_front_taken(s: Seq<char>)
    ensures
        edge_front(s).len() <= s.len(),
        s.skip(s.len() - edge_front(s).len()) == edge_front(s),
    decreases s.len(),
{
    if s.len() > 0 && is_edge(s[0]) {
        lemma_front_taken(s.skip(1));
        assert(s.skip(s.len() - edge_front(s).len()) =~= s.skip(1).skip(
            s.skip(1).len() - edge_front(s).len(),
        ));
    } else {
        assert(s.skip(0) =~= s);
    }
}

proof fn lemma_back_taken(s: Seq<char>)
    ensures
        edge_back(s).len() <= s.len(),
        s.take(edge_back(s).len() as int) == edge_back(s),
    decreases s.len(),
{
    if s.len() > 0 && is_edge(s.last()) {
        lemma_back_taken(s.drop_last());
        assert(s.take(edge_back(s).len() as int) =~= s.drop_last().take(edge_back(s).len() as int));
    } else {
        assert(s.take(s.len() as int) =~= s);
    }
}

proof fn lemma_found_from(words: Seq<Seq<char>>, n: nat, found: Seq<Seq<char>>, h: Seq<char>)
    requires
        n <= words.len(),
        handles_in(words, n, found).contains(h),
    ensures
        found.contains(h) || (is_handle(h) && exists|k: int|
            0 <= k < n && core_of(#[trigger] words[k]) == h),
    decreases n,
{
    if n > 0 {
        let before = handles_in(words, (n - 1) as nat, found);
        let t = core_of(words[n - 1]);
        if before.contains(h) {
            lemma_found_from(words, (n - 1) as nat, found, h);
        } else {
            let all = handles_in(words, n, found);
            let i = all.index_of(h);
            if i < before.len() {
                assert(before[i] == h);
            }
            assert(core_of(words[n - 1]) == h);
        }
    }
}

proof fn lemma_texts_from(texts: Seq<Seq<char>>, n: nat, h: Seq<char>)
    requires
        n <= texts.len(),
        handles_of(texts, n).contains(h),
    ensures
        is_handle(h),
        exists|k: int| 0 <= k < n && holds(#[trigger] texts[k], h),
    decreases n,
{
    if n > 0 {
        let text = texts[n - 1];
        let words = words_of(text);
        let before = handles_of(texts, (n - 1) as nat);
        if before.contains(h) {
            lemma_texts_from(texts, (n - 1) as nat, h);
        } else {
            lemma_found_from(words, words.len(), before, h);
            let w = choose|w: int| 0 <= w < words.len() && core_of(#[trigger] words[w]) == h;
            let marks = Seq::new(text.len(), |k: int| separates(text[k]));
            lemma_pieces_within(text, marks, w);
            let i = choose|i: int| #[trigger] occurs_at(text, words[w], i);
            lemma_edges_within(words[w]);
            let j = choose|j: int| #[trigger] occurs_at(words[w], h, j);
            assert(text.subrange(i + j, i + j + h.len()) =~= words[w].subrange(j, j + h.len()));
            assert(occurs_at(text, h, i + j));
            assert(holds(texts[n - 1], h));
        }
    }
}

/// Nothing is harvested but handles that stand in a text of the payload.
pub proof fn lemma_harvest_sound(payload: CborV, h: Seq<char>)
    requires
        harvested(payload).contains(h),
    ensures
        prefixed(h),
        exists|t: Seq<char>| #[trigger] all_texts(payload).contains(t) && holds(t, h),
{
    let texts = all_texts(payload);
    lemma_texts_from(texts, texts.len(), h);
    let k = choose|k: int| 0 <= k < texts.len() && holds(#[trigger] texts[k], h);
    assert(texts.contains(texts[k]));
}

proof fn lemma_first_unknown<V: SubstrateView>(view: &V, hs: Seq<Seq<char>>, i: int)
    requires
        0 <= i,
    ensures
        match first_unknown(view, hs, i) {
            Some(h) => !view.known(h) && exists|j: int|
                i <= j < hs.len() && #[trigger] hs[j] == h && forall|k: int|
                    i <= k < j ==> view.known(#[trigger] hs[k]),
            None => forall|j: int| i <= j < hs.len() ==> view.known(#[trigger] hs[j]),
        },
    decreases hs.len() - i,
{
    if i < hs.len() && view.known(hs[i]) {
        lemma_first_unknown(view, hs, i + 1);
        if let Some(h) = first_unknown(view, hs, i + 1) {
            let j = choose|j: int|
                i + 1 <= j < hs.len() && #[trigger] hs[j] == h && forall|k: int|
                    i + 1 <= k < j ==> view.known(#[trigger] hs[k]);
            assert(hs[j] == h);
        }
    } else if i < hs.len() {
        assert(hs[i] == first_unknown(view, hs, i)->0);
    }
}

proof fn lemma_conflicts(facts: Seq<(Seq<char>, Seq<char>)>, object: Seq<char>, n: nat, h: Seq<char>)
    requires
        n <= facts.len(),
    ensures
        conflicts(facts, object, n).contains(h) <==> exists|i: int|
            0 <= i < n && (#[trigger] facts[i]).0 == h && facts[i].1 != object,
        conflicts(facts, object, n).len() > 0 <==> exists|i: int|
            0 <= i < n && (#[trigger] facts[i]).1 != object,
    decreases n,
{
    if n > 0 {
        let before = conflicts(facts, object, (n - 1) as nat);
        let f = facts[n - 1];
        lemma_conflicts(facts, object, (n - 1) as nat, h);
        let all = conflicts(facts, object, n);
        if f.1 != object {
            assert(all[before.len() as int] == f.0);
            if before.contains(h) {
                assert(all[before.index_of(h)] == h);
            }
            if all.contains(h) && h != f.0 {
                let i = all.index_of(h);
                assert(before[i] == h);
            }
        }
    }
}

/// A write is admitted only if every handle that it cites exists. If one does not, the
/// write is refused as a hallucination, by the first such handle.
pub proof fn lemma_gate_handles<V: SubstrateView>(view: &V, payload: CborV)
    ensures
        ({
            let hs = harvested(payload);
            let r = judged(view, payload);
            let ghosts = exists|i: int| 0 <= i < hs.len() && !view.known(#[trigger] hs[i]);
            &&& r is Ok ==> forall|i: int| 0 <= i < hs.len() ==> view.known(#[trigger] hs[i])
            &&& ghosts <==> r is Err && r->Err_0.0 is HallucinationDetected
            &&& ghosts ==> exists|i: int|
                0 <= i < hs.len() && !view.known(#[trigger] hs[i]) && r->Err_0.1
                    == "payload references nonexistent handle "@ + hs[i] && forall|k: int|
                    0 <= k < i ==> view.known(#[trigger] hs[k])
        }),
{
    let hs = harvested(payload);
    lemma_first_unknown(view, hs, 0);
    if let Some(h) = first_unknown(view, hs, 0) {
        let j = choose|j: int|
            0 <= j < hs.len() && #[trigger] hs[j] == h && forall|k: int|
                0 <= k < j ==> view.known(#[trigger] hs[k]);
        assert(!view.known(hs[j]));
    }
}

/// A write that cites a handle which does not exist, in any of its texts, is refused
/// as a hallucination.
pub proof fn lemma_ghost_refused<V: SubstrateView>(
    view: &V,
    payload: CborV,
    text: Seq<char>,
    h: Seq<char>,
    i: int,
)
    requires
        all_texts(payload).contains(text),
        cites(text, h, i),
        names(h),
        !view.known(h),
    ensures
        judged(view, payload) is Err,
        judged(view, payload)->Err_0.0 is HallucinationDetected,
{
    lemma_harvest_complete(payload, text, h, i);
    let hs = harvested(payload);
    let k = hs.index_of(h);
    assert(!view.known(hs[k]));
    lemma_gate_handles(view, payload);
}

/// A write whose handles all exist is refused for drift exactly where it says
/// something of a subject and predicate of which an active fact says something else,
/// and declares nothing that it supersedes; and every other is admitted.
pub proof fn lemma_gate_drift<V: SubstrateView>(view: &V, payload: CborV)
    requires
        forall|i: int|
            0 <= i < harvested(payload).len() ==> view.known(#[trigger] harvested(payload)[i]),
    ensures
        ({
            let (s, p, o) = (
                payload.text_field("subject"@),
                payload.text_field("predicate"@),
                payload.text_field("object"@),
            );
            let facts = view.facts(s->0, p->0);
            let drifts = s is Some && p is Some && o is Some && payload.text_field("supersedes"@)
                is None && payload.text_field("supersedes_decision"@) is None && exists|i: int|
                0 <= i < facts.len() && (#[trigger] facts[i]).1 != o->0;
            let r = judged(view, payload);
            &&& drifts <==> r is Err
            &&& drifts ==> r->Err_0.0 is SemanticDrift && exists|other: Seq<Seq<char>>|
                r->Err_0.1 == "write to occupied slot ("@ + s->0 + ", "@ + p->0
                    + ") conflicts with active "@ + #[trigger] joined(other, ", "@)
                    + " and declares no supersede"@ && forall|h: Seq<char>| #[trigger]
                    other.contains(h) <==> exists|i: int|
                        0 <= i < facts.len() && (#[trigger] facts[i]).0 == h && facts[i].1 != o->0
        }),
{
    lemma_first_unknown(view, harvested(payload), 0);
    if let (Some(s), Some(p), Some(o)) = (
        payload.text_field("subject"@),
        payload.text_field("predicate"@),
        payload.text_field("object"@),
    ) {
        let facts = view.facts(s, p);
        let other = conflicts(facts, o, facts.len());
        assert forall|h: Seq<char>| #[trigger] other.contains(h) <==> exists|i: int|
            0 <= i < facts.len() && (#[trigger] facts[i]).0 == h && facts[i].1 != o by {
            lemma_conflicts(facts, o, facts.len(), h);
        }
        lemma_conflicts(facts, o, facts.len(), Seq::empty());
        assert(joined(other, ", "@) == joined(other, ", "@));
    }
}

/// A judgment of an output.
#[derive(Clone, Debug, PartialEq, Eq)]
pub enum AuditVerdict {
    Pass,
    Fail { reason: String },
}

/// A judgment as a mathematical object.
pub enum AuditVerdictV {
    Pass,
    Fail(Seq<char>),
}

impl DeepView for AuditVerdict {
    type V = AuditVerdictV;

    open spec fn deep_view(&self) -> AuditVerdictV {
        match self {
            AuditVerdict::Pass => AuditVerdictV::Pass,
            AuditVerdict::Fail { reason } => AuditVerdictV::Fail(reason@),
        }
    }
}

/// What the warden found of an output.
#[derive(Debug)]
pub struct AuditRecord {
    pub judgment_handle: String,
    pub target_output: String,
    pub verdict_pass: bool,
    /// Evidence that the audited output does not cite.
    pub independent_grounds: Vec<String>,
    /// Where there is no such evidence: a digest of what is cited.
    pub hash_proof: Option<String>,
    pub logical_at: u64,
}

/// An audit as a mathematical object.
#[verifier::ext_equal]
pub struct AuditRecordV {
    pub judgment_handle: Seq<char>,
    pub target_output: Seq<char>,
    pub verdict_pass: bool,
    pub independent_grounds: Seq<Seq<char>>,
    pub hash_proof: Option<Seq<char>>,
    pub logical_at: u64,
}

impl DeepView for AuditRecord {
    type V = AuditRecordV;

    open spec fn deep_view(&self) -> AuditRecordV {
        AuditRecordV {
            judgment_handle: self.judgment_handle@,
            target_output: self.target_output@,
            verdict_pass: self.verdict_pass,
            independent_grounds: text_views(self.independent_grounds@),
            hash_proof: self.hash_proof.deep_view(),
            logical_at: self.logical_at,
        }
    }
}

impl Clone for AuditRecord {
    fn clone(&self) -> (r: AuditRecord)
        ensures
            r.deep_view() == self.deep_view(),
    {
        AuditRecord {
            judgment_handle: self.judgment_handle.clone(),
            target_output: self.target_output.clone(),
            verdict_pass: self.verdict_pass,
            independent_grounds: dup_texts(&self.independent_grounds),
            hash_proof: dup_text(&self.hash_proof),
            logical_at: self.logical_at,
        }
    }
}

impl AuditRecordV {
    /// The encoded form of an audit.
    pub open spec fn value(self) -> CborV {
        map_value(
            seq![
                ("judgment_handle"@, CborV::Text(self.judgment_handle)),
                ("target_output"@, CborV::Text(self.target_output)),
                ("verdict_pass"@, CborV::Bool(self.verdict_pass)),
                ("independent_grounds"@, texts_value(self.independent_grounds)),
                ("hash_proof"@, opt_text_value(self.hash_proof)),
                ("logical_at"@, CborV::U64(self.logical_at)),
            ],
        )
    }

    /// What an encoded form says; the first required field that is missing is the
    /// error.
    pub open spec fn read(v: CborV) -> Result<AuditRecordV, ErrV> {
        if v.text_field("judgment_handle"@) is None {
            Err((ErrCode::Internal, missing_text("judgment_handle"@)))
        } else if v.text_field("target_output"@) is None {
            Err((ErrCode::Internal, missing_text("target_output"@)))
        } else {
            Ok(
                AuditRecordV {
                    judgment_handle: v.text_field("judgment_handle"@)->0,
                    target_output: v.text_field("target_output"@)->0,
                    verdict_pass: match v.bool_field("verdict_pass"@) {
                        Some(b) => b,
                        None => false,
                    },
                    independent_grounds: texts_field(v, "independent_grounds"@),
                    hash_proof: v.text_field("hash_proof"@),
                    logical_at: u64_or_zero(v, "logical_at"@),
                },
            )
        }
    }

    /// Reading gives back what was encoded.
    pub proof fn lemma_read_back(self)
        ensures
            AuditRecordV::read(self.value()) == Ok::<_, ErrV>(self),
            self.value().field("judgment_handle"@) == Some(CborV::Text(self.judgment_handle)),
            self.value().field("target_output"@) == Some(CborV::Text(self.target_output)),
            self.value().field("verdict_pass"@) == Some(CborV::Bool(self.verdict_pass)),
            self.value().field("independent_grounds"@) == Some(texts_value(self.independent_grounds)),
            self.value().field("hash_proof"@) == Some(opt_text_value(self.hash_proof)),
            self.value().field("logical_at"@) == Some(CborV::U64(self.logical_at)),
    {
        reveal_strlit("judgment_handle");
        reveal_strlit("target_output");
        reveal_strlit("verdict_pass");
        reveal_strlit("independent_grounds");
        reveal_strlit("hash_proof");
        reveal_strlit("logical_at");
        assert("judgment_handle"@.len() == 15);
        assert("target_output"@.len() == 13);
        assert("verdict_pass"@.len() == 12);
        assert("independent_grounds"@.len() == 19);
        assert("hash_proof"@.len() == 10);
        assert("logical_at"@.len() == 10);
        assert("hash_proof"@[0] != "logical_at"@[0]);
        reveal_with_fuel(lookup_from, 7);
        lemma_texts_back(self.independent_grounds);
        let m = self.value()->Pairs_0;
        assert(m[0].0 == CborV::Text("judgment_handle"@));
        assert(m[1].0 == CborV::Text("target_output"@));
        assert(m[2].0 == CborV::Text("verdict_pass"@));
        assert(m[3].0 == CborV::Text("independent_grounds"@));
        assert(m[4].0 == CborV::Text("hash_proof"@));
        assert(m[5].0 == CborV::Text("logical_at"@));
        assert(self.value().field("judgment_handle"@) == Some(CborV::Text(self.judgment_handle)));
        assert(self.value().field("target_output"@) == Some(CborV::Text(self.target_output)));
        assert(self.value().field("verdict_pass"@) == Some(CborV::Bool(self.verdict_pass)));
        assert(self.value().field("independent_grounds"@) == Some(texts_value(self.independent_grounds)));
        assert(self.value().field("hash_proof"@) == Some(opt_text_value(self.hash_proof)));
        assert(self.value().field("logical_at"@) == Some(CborV::U64(self.logical_at)));
    }

}

impl AuditRecord {
    pub fn to_cbor(&self) -> (r: Cbor)
        ensures
            r@ == self.deep_view().value(),
    {
        let pairs = vec![
            ("judgment_handle", Cbor::t(self.judgment_handle.as_str())),
            ("target_output", Cbor::t(self.target_output.as_str())),
            ("verdict_pass", Cbor::Bool(self.verdict_pass)),
            ("independent_grounds", Cbor::text_array(self.independent_grounds.as_slice())),
            ("hash_proof", Cbor::opt_text(&self.hash_proof)),
            ("logical_at", Cbor::U64(self.logical_at)),
        ];
        let ghost want = seq![
            ("judgment_handle"@, CborV::Text(self.judgment_handle@)),
            ("target_output"@, CborV::Text(self.target_output@)),
            ("verdict_pass"@, CborV::Bool(self.verdict_pass)),
            ("independent_grounds"@, texts_value(text_views(self.independent_grounds@))),
            ("hash_proof"@, opt_text_value(self.hash_proof.deep_view())),
            ("logical_at"@, CborV::U64(self.logical_at)),
        ];
        assert(Seq::new(pairs@.len(), |i: int| (pairs@[i].0@, pairs@[i].1@)) =~= want);
        Cbor::map(pairs)
    }

    pub fn from_cbor(c: &Cbor) -> (r: UcResult<AuditRecord>)
        ensures
            agrees(r, AuditRecordV::read(c@)),
    {
        let judgment_handle = match c.req_str("judgment_handle") {
            Ok(x) => x,
            Err(e) => {
                return Err(e);
            },
        };
        let target_output = match c.req_str("target_output") {
            Ok(x) => x,
            Err(e) => {
                return Err(e);
            },
        };
        let verdict_pass: bool = match c.opt_bool("verdict_pass") {
            Some(b) => b,
            None => false,
        };
        let independent_grounds = c.texts_or_empty("independent_grounds");
        let hash_proof = c.opt_str("hash_proof");
        let logical_at: u64 = c.u64_or_zero("logical_at");
        Ok(AuditRecord { judgment_handle, target_output, verdict_pass, independent_grounds, hash_proof, logical_at })
    }
}

impl Record for AuditRecord {
    open spec fn key_of(v: AuditRecordV) -> Seq<char> {
        v.judgment_handle
    }

    open spec fn value_of(v: AuditRecordV) -> CborV {
        v.value()
    }

    open spec fn read_of(c: CborV) -> Result<AuditRecordV, ErrV> {
        AuditRecordV::read(c)
    }

    open spec fn valid(v: AuditRecordV) -> bool {
        true
    }

    proof fn lemma_back(v: AuditRecordV) {
        v.lemma_read_back();
    }

    fn key(&self) -> (r: String) {
        self.judgment_handle.clone()
    }

    fn to_row(&self) -> (r: Cbor) {
        self.to_cbor()
    }

    fn from_row(c: &Cbor) -> (r: UcResult<AuditRecord>) {
        AuditRecord::from_cbor(c)
    }
}

impl Item for AuditRecord {
    open spec fn value_of(v: AuditRecordV) -> CborV {
        v.value()
    }

    open spec fn read_of(c: CborV) -> Result<AuditRecordV, ErrV> {
        AuditRecordV::read(c)
    }

    open spec fn valid(v: AuditRecordV) -> bool {
        true
    }

    proof fn lemma_back(v: AuditRecordV) {
        v.lemma_read_back();
    }

    fn to_item(&self) -> (r: Cbor) {
        self.to_cbor()
    }

    fn from_item(c: &Cbor) -> (r: UcResult<AuditRecord>) {
        AuditRecord::from_cbor(c)
    }
}

/// The first `n` handles as far as the substrate does not know them.
pub open spec fn unknown_of<V: SubstrateView>(view: &V, hs: Seq<Seq<char>>, n: nat) -> Seq<Seq<char>>
    decreases n,
{
    if n == 0 {
        Seq::empty()
    } else if !view.known(hs[n - 1]) {
        unknown_of(view, hs, (n - 1) as nat).push(hs[n - 1])
    } else {
        unknown_of(view, hs, (n - 1) as nat)
    }
}

/// The handles of the first `n` facts that are not cited, each once.
pub open spec fn uncited(facts: Seq<(Seq<char>, Seq<char>)>, cited: Seq<Seq<char>>, n: nat) -> Seq<
    Seq<char>,
>
    decreases n,
{
    if n == 0 {
        Seq::empty()
    } else {
        let before = uncited(facts, cited, (n - 1) as nat);
        let h = facts[n - 1].0;
        if !cited.contains(h) && !before.contains(h) {
            before.push(h)
        } else {
            before
        }
    }
}

/// Evidence on a job's slot that an output does not cite.
pub open spec fn independent_of<V: SubstrateView>(
    view: &V,
    cited: Seq<Seq<char>>,
    job: Option<CurationJobV>,
) -> Seq<Seq<char>> {
    match job {
        Some(j) => match (j.subject, j.predicate) {
            (Some(s), Some(p)) => {
                let facts = view.facts(s, p);
                uncited(facts, cited, facts.len())
            },
            _ => Seq::empty(),
        },
        None => Seq::empty(),
    }
}

/// The first `n` handles with their public texts, as they go into a proof.
pub open spec fn proof_input<V: SubstrateView>(view: &V, hs: Seq<Seq<char>>, n: nat) -> Seq<u8>
    decreases n,
{
    if n == 0 {
        Seq::empty()
    } else {
        let h = hs[n - 1];
        proof_input(view, hs, (n - 1) as nat) + encode_utf8(h) + seq![0u8] + match view.text(h) {
            Some(t) => encode_utf8(t),
            None => Seq::empty(),
        } + seq![0xFFu8]
    }
}

/// The digest of cited evidence; the order of citation does not matter.
pub open spec fn proof_of<V: SubstrateView>(view: &V, cited: Seq<Seq<char>>) -> Seq<char> {
    let s = sorted_texts(cited);
    hex_text(sha_of(proof_input(view, s, s.len())))
}

/// The line that a source gives a model as evidence.
pub open spec fn source_line<V: SubstrateView>(view: &V, label: Seq<char>, h: Seq<char>) -> Seq<
    char,
> {
    match view.text(h) {
        Some(t) => "supports_initiator: "@ + label + " "@ + h + ": "@ + t,
        None => "supports_auditor: "@ + label + " "@ + h + " has no public text"@,
    }
}

/// The lines that sources give.
pub open spec fn source_lines<V: SubstrateView>(
    view: &V,
    label: Seq<char>,
    hs: Seq<Seq<char>>,
) -> Seq<Seq<char>> {
    hs.map_values(|h: Seq<char>| source_line(view, label, h))
}

/// What a model is given to judge an output by.
pub open spec fn evidence_of<V: SubstrateView>(
    view: &V,
    output: CuratorPublicV,
    independent: Seq<Seq<char>>,
) -> Seq<Seq<char>> {
    source_lines(view, "cited_source"@, output.grounded_in) + source_lines(
        view,
        "independent_source"@,
        independent,
    ) + seq![
        "claim: target="@ + output.target_handle + " body="@ + output.body,
        "supports_initiator: structural grounding and schema checks passed"@,
    ]
}

/// What an output's form says: its body refers to what exists, a skeleton is not
/// empty, and a proposal cites both sides.
pub open spec fn form_verdict<V: SubstrateView>(view: &V, output: CuratorPublicV) -> AuditVerdictV {
    match first_unknown(view, harvested(CborV::Text(output.body)), 0) {
        Some(h) => AuditVerdictV::Fail("output body references nonexistent "@ + h),
        None => if output.operation is Skeleton && trimmed(output.body).len() == 0 {
            AuditVerdictV::Fail("empty skeleton"@)
        } else if output.operation is SupersedeProposal && output.grounded_in.len() < 2 {
            AuditVerdictV::Fail("supersede proposal must ground old and new handles"@)
        } else {
            AuditVerdictV::Pass
        },
    }
}

/// What a model is asked about an output: the evidence for and against it, in
/// order. Nothing where the output fails by itself.
pub open spec fn question_of<V: SubstrateView>(
    view: &V,
    output: CuratorPublicV,
    job: Option<CurationJobV>,
) -> Option<Seq<Seq<char>>> {
    if unknown_of(view, output.grounded_in, output.grounded_in.len()).len() == 0 && form_verdict(
        view,
        output,
    ) is Pass {
        let independent = independent_of(view, output.grounded_in, job);
        Some(sorted_texts(evidence_of(view, output, independent)))
    } else {
        None
    }
}

/// The audit of an output, given what a model said, if one was asked. A model may
/// reject what passes by itself, and never saves what fails.
pub open spec fn audited_with<V: SubstrateView>(
    view: &V,
    output: CuratorPublicV,
    job: Option<CurationJobV>,
    at: u64,
    seed: u64,
    said: Option<Verdict>,
) -> (AuditRecordV, AuditVerdictV) {
    let judgment_handle = "warden/judgment/"@ + minted(at, seeded(seed ^ at ^ 0xA0D17));
    let missing = unknown_of(view, output.grounded_in, output.grounded_in.len());
    if missing.len() > 0 {
        (
            AuditRecordV {
                judgment_handle,
                target_output: output.output_handle,
                verdict_pass: false,
                independent_grounds: Seq::empty(),
                hash_proof: None,
                logical_at: at,
            },
            AuditVerdictV::Fail(
                "cited grounding missing: "@ + joined(sorted_texts(missing), ", "@),
            ),
        )
    } else {
        let independent = independent_of(view, output.grounded_in, job);
        let form = form_verdict(view, output);
        let verdict = if form is Pass && said == Some(Verdict::AuditorCorrect) {
            AuditVerdictV::Fail("configured Warden model rejected the Librarian output"@)
        } else {
            form
        };
        (
            AuditRecordV {
                judgment_handle,
                target_output: output.output_handle,
                verdict_pass: verdict is Pass,
                independent_grounds: independent,
                hash_proof: if independent.len() == 0 {
                    Some(proof_of(view, output.grounded_in))
                } else {
                    None
                },
                logical_at: at,
            },
            verdict,
        )
    }
}

/// An audit: what is recorded, and the verdict. Cited handles have to exist. A
/// model other than the deterministic one may reject what passes in form, and
/// nothing else.
pub open spec fn audited<V: SubstrateView, B: CuratorBackend>(
    view: &V,
    backend: &B,
    output: CuratorPublicV,
    job: Option<CurationJobV>,
    at: u64,
    seed: u64,
) -> (AuditRecordV, AuditVerdictV) {
    let independent = independent_of(view, output.grounded_in, job);
    audited_with(
        view,
        output,
        job,
        at,
        seed,
        if backend.name() == "deterministic.v1"@ {
            None
        } else {
            Some(
                backend.verdict_of(
                    seed,
                    output.body,
                    sorted_texts(evidence_of(view, output, independent)),
                ),
            )
        },
    )
}

/// An output that passes is never merely waved through: the audit names
/// evidence that the output does not cite, or proves what was read of the cited
/// evidence; and everything that is cited exists.
pub proof fn lemma_audit_grounded<V: SubstrateView, B: CuratorBackend>(
    view: &V,
    backend: &B,
    output: CuratorPublicV,
    job: Option<CurationJobV>,
    at: u64,
    seed: u64,
    i: int,
)
    requires
        audited(view, backend, output, job, at, seed).1 is Pass,
    ensures
        ({
            let rec = audited(view, backend, output, job, at, seed).0;
            &&& rec.verdict_pass
            &&& rec.independent_grounds.len() > 0 || rec.hash_proof == Some(
                proof_of(view, output.grounded_in),
            )
            &&& 0 <= i < rec.independent_grounds.len() ==> !output.grounded_in.contains(
                rec.independent_grounds[i],
            )
            &&& 0 <= i < output.grounded_in.len() ==> view.known(output.grounded_in[i])
        }),
{
    let cited = output.grounded_in;
    lemma_unknown(view, cited, cited.len());
    if let Some(j) = job {
        if let (Some(s), Some(p)) = (j.subject, j.predicate) {
            let facts = view.facts(s, p);
            lemma_uncited(facts, cited, facts.len());
        }
    }
}

/// An audit passes exactly where every cited handle exists, every handle in the body
/// exists, a skeleton is not blank, a proposal cites two handles or more, and no model
/// rejected the output. The record says whether it passed, and what was audited when.
pub proof fn lemma_audit_passes<V: SubstrateView>(
    view: &V,
    output: CuratorPublicV,
    job: Option<CurationJobV>,
    at: u64,
    seed: u64,
    said: Option<Verdict>,
)
    ensures
        ({
            let (rec, verdict) = audited_with(view, output, job, at, seed, said);
            let cited = output.grounded_in;
            let named = harvested(CborV::Text(output.body));
            let sound = {
                &&& forall|i: int| 0 <= i < cited.len() ==> view.known(#[trigger] cited[i])
                &&& forall|i: int| 0 <= i < named.len() ==> view.known(#[trigger] named[i])
                &&& output.operation is Skeleton ==> exists|i: int|
                    0 <= i < output.body.len() && !is_space(#[trigger] output.body[i])
                &&& output.operation is SupersedeProposal ==> cited.len() >= 2
            };
            &&& verdict is Pass <==> sound && said != Some(Verdict::AuditorCorrect)
            &&& rec.verdict_pass <==> verdict is Pass
            &&& rec.target_output == output.output_handle
            &&& rec.logical_at == at
            &&& starts(rec.judgment_handle, "warden/judgment/"@)
        }),
{
    let cited = output.grounded_in;
    let rec = audited_with(view, output, job, at, seed, said).0;
    lemma_unknown(view, cited, cited.len());
    lemma_first_unknown(view, harvested(CborV::Text(output.body)), 0);
    lemma_trimmed_within(output.body);
    assert(rec.judgment_handle.subrange(0, "warden/judgment/"@.len() as int)
        =~= "warden/judgment/"@);
}

/// An output whose body cites a handle that does not exist fails its audit, whatever a
/// model says.
pub proof fn lemma_ghost_in_body_fails<V: SubstrateView>(
    view: &V,
    output: CuratorPublicV,
    job: Option<CurationJobV>,
    at: u64,
    seed: u64,
    said: Option<Verdict>,
    h: Seq<char>,
    i: int,
)
    requires
        cites(output.body, h, i),
        names(h),
        !view.known(h),
    ensures
        audited_with(view, output, job, at, seed, said).1 is Fail,
        !audited_with(view, output, job, at, seed, said).0.verdict_pass,
{
    let v = CborV::Text(output.body);
    assert(all_texts(v)[0] == output.body);
    lemma_harvest_complete(v, output.body, h, i);
    let named = harvested(v);
    let k = named.index_of(h);
    assert(!view.known(named[k]));
    lemma_audit_passes(view, output, job, at, seed, said);
}

/// The grounds that an audit names are the facts of the job's slot that the output does
/// not cite, all of them.
pub proof fn lemma_grounds_complete<V: SubstrateView>(
    view: &V,
    output: CuratorPublicV,
    job: CurationJobV,
    at: u64,
    seed: u64,
    said: Option<Verdict>,
    h: Seq<char>,
)
    requires
        job.subject is Some,
        job.predicate is Some,
        forall|i: int|
            0 <= i < output.grounded_in.len() ==> view.known(#[trigger] output.grounded_in[i]),
    ensures
        ({
            let facts = view.facts(job.subject->0, job.predicate->0);
            let rec = audited_with(view, output, Some(job), at, seed, said).0;
            &&& rec.independent_grounds.contains(h) <==> !output.grounded_in.contains(h)
                && exists|i: int| 0 <= i < facts.len() && (#[trigger] facts[i]).0 == h
            &&& rec.hash_proof is Some <==> rec.independent_grounds.len() == 0
        }),
{
    let facts = view.facts(job.subject->0, job.predicate->0);
    lemma_unknown(view, output.grounded_in, output.grounded_in.len());
    lemma_uncited_all(facts, output.grounded_in, facts.len(), h);
}

proof fn lemma_uncited_all(
    facts: Seq<(Seq<char>, Seq<char>)>,
    cited: Seq<Seq<char>>,
    n: nat,
    h: Seq<char>,
)
    requires
        n <= facts.len(),
    ensures
        uncited(facts, cited, n).contains(h) <==> !cited.contains(h) && exists|i: int|
            0 <= i < n && (#[trigger] facts[i]).0 == h,
    decreases n,
{
    if n > 0 {
        let before = uncited(facts, cited, (n - 1) as nat);
        let all = uncited(facts, cited, n);
        let x = facts[n - 1].0;
        lemma_uncited_all(facts, cited, (n - 1) as nat, h);
        lemma_uncited_all(facts, cited, (n - 1) as nat, x);
        if !cited.contains(x) && !before.contains(x) {
            assert(all[before.len() as int] == x);
            if before.contains(h) {
                assert(all[before.index_of(h)] == h);
            }
            if all.contains(h) && h != x {
                let i = all.index_of(h);
                assert(before[i] == h);
            }
        }
    }
}

/// A flag is for a hallucination exactly where the judgment failed for one. It is
/// raised against the target, cites the disputed handles, and says why.
pub proof fn lemma_flag(
    at: u64,
    seed: u64,
    target: Seq<char>,
    code: ErrCode,
    message: Seq<char>,
    disputed: Seq<Seq<char>>,
)
    ensures
        ({
            let f = flag_of(at, seed, target, code, message, disputed).public;
            &&& f.operation is FlagHallucination <==> code is HallucinationDetected
            &&& f.operation is FlagDrift <==> !(code is HallucinationDetected)
            &&& f.target_handle == target
            &&& f.grounded_in == disputed
            &&& f.body == message
            &&& f.logical_at == at
            &&& starts(f.output_handle, "warden/judgment/"@)
        }),
{
    let h = flag_of(at, seed, target, code, message, disputed).public.output_handle;
    assert(h.subrange(0, "warden/judgment/"@.len() as int) =~= "warden/judgment/"@);
}

proof fn lemma_unknown<V: SubstrateView>(view: &V, hs: Seq<Seq<char>>, n: nat)
    requires
        n <= hs.len(),
    ensures
        unknown_of(view, hs, n).len() == 0 <==> (forall|i: int|
            0 <= i < n ==> view.known(#[trigger] hs[i])),
    decreases n,
{
    if n > 0 {
        lemma_unknown(view, hs, (n - 1) as nat);
    }
}

proof fn lemma_uncited(facts: Seq<(Seq<char>, Seq<char>)>, cited: Seq<Seq<char>>, n: nat)
    ensures
        forall|i: int|
            0 <= i < uncited(facts, cited, n).len() ==> !cited.contains(
                #[trigger] uncited(facts, cited, n)[i],
            ),
    decreases n,
{
    if n > 0 {
        lemma_uncited(facts, cited, (n - 1) as nat);
        let before = uncited(facts, cited, (n - 1) as nat);
        let now = uncited(facts, cited, n);
        assert forall|i: int| 0 <= i < now.len() implies !cited.contains(#[trigger] now[i]) by {
            if i < before.len() {
                assert(now[i] == before[i]);
            }
        }
    }
}

/// Two lists with the same items, in whatever order.
pub open spec fn reordered(a: Seq<Seq<char>>, b: Seq<Seq<char>>) -> bool {
    a.to_multiset() == b.to_multiset()
}

proof fn lemma_reordered(a: Seq<Seq<char>>, b: Seq<Seq<char>>)
    requires
        reordered(a, b),
    ensures
        a.len() == b.len(),
        forall|x: Seq<char>| a.contains(x) <==> #[trigger] b.contains(x),
{
    a.to_multiset_ensures();
    b.to_multiset_ensures();
    assert forall|x: Seq<char>| a.contains(x) <==> #[trigger] b.contains(x) by {
        assert(a.contains(x) <==> a.to_multiset().count(x) > 0);
        assert(b.contains(x) <==> b.to_multiset().count(x) > 0);
    }
}

proof fn lemma_uncited_same(
    facts: Seq<(Seq<char>, Seq<char>)>,
    a: Seq<Seq<char>>,
    b: Seq<Seq<char>>,
    n: nat,
)
    requires
        forall|x: Seq<char>| a.contains(x) <==> #[trigger] b.contains(x),
    ensures
        uncited(facts, a, n) == uncited(facts, b, n),
    decreases n,
{
    if n > 0 {
        lemma_uncited_same(facts, a, b, (n - 1) as nat);
    }
}

proof fn lemma_map_reordered(
    a: Seq<Seq<char>>,
    b: Seq<Seq<char>>,
    f: spec_fn(Seq<char>) -> Seq<char>,
)
    requires
        reordered(a, b),
    ensures
        reordered(a.map_values(f), b.map_values(f)),
    decreases a.len(),
{
    lemma_reordered(a, b);
    if a.len() == 0 {
        assert(a.map_values(f) =~= b.map_values(f));
    } else {
        let x = a.last();
        let front = a.drop_last();
        assert(a =~= front.push(x));
        assert(a[a.len() - 1] == x);
        assert(b.contains(x));
        let j = choose|j: int| 0 <= j < b.len() && b[j] == x;
        let rest = b.remove(j);
        vstd::seq_lib::to_multiset_build(front, x);
        vstd::seq_lib::to_multiset_remove(b, j);
        assert(front.to_multiset() =~= a.to_multiset().remove(x));
        assert(rest.to_multiset() =~= b.to_multiset().remove(x));
        lemma_map_reordered(front, rest, f);
        let (ma, mb) = (a.map_values(f), b.map_values(f));
        assert(ma =~= front.map_values(f).push(f(x)));
        assert(rest.map_values(f) =~= mb.remove(j));
        vstd::seq_lib::to_multiset_build(front.map_values(f), f(x));
        vstd::seq_lib::to_multiset_remove(mb, j);
        mb.to_multiset_ensures();
        assert(mb.contains(mb[j]));
        assert(mb.to_multiset() =~= mb.remove(j).to_multiset().insert(f(x)));
        assert(ma.to_multiset() =~= mb.to_multiset());
    }
}

proof fn lemma_unknown_count<V: SubstrateView>(view: &V, hs: Seq<Seq<char>>, n: nat, x: Seq<char>)
    requires
        n <= hs.len(),
    ensures
        unknown_of(view, hs, n).to_multiset().count(x) == if view.known(x) {
            0
        } else {
            hs.take(n as int).to_multiset().count(x)
        },
    decreases n,
{
    if n > 0 {
        let m = (n - 1) as nat;
        lemma_unknown_count(view, hs, m, x);
        let front = hs.take(m as int);
        assert(hs.take(n as int) =~= front.push(hs[m as int]));
        vstd::seq_lib::to_multiset_build(front, hs[m as int]);
        vstd::seq_lib::to_multiset_build(unknown_of(view, hs, m), hs[m as int]);
    } else {
        unknown_of(view, hs, n).to_multiset_ensures();
        hs.take(0).to_multiset_ensures();
        assert(unknown_of(view, hs, n) =~= hs.take(0));
    }
}

proof fn lemma_unknown_reordered<V: SubstrateView>(view: &V, a: Seq<Seq<char>>, b: Seq<Seq<char>>)
    requires
        reordered(a, b),
    ensures
        reordered(unknown_of(view, a, a.len()), unknown_of(view, b, b.len())),
{
    let (ua, ub) = (unknown_of(view, a, a.len()), unknown_of(view, b, b.len()));
    assert forall|x: Seq<char>| ua.to_multiset().count(x) == #[trigger] ub.to_multiset().count(
        x,
    ) by {
        lemma_unknown_count(view, a, a.len(), x);
        lemma_unknown_count(view, b, b.len(), x);
        assert(a.take(a.len() as int) =~= a);
        assert(b.take(b.len() as int) =~= b);
    }
    assert(ua.to_multiset() =~= ub.to_multiset());
}

/// The order in which an output cites its evidence does not matter to an audit: the
/// record and the verdict are the same, reason and all.
pub proof fn lemma_order_insensitive<V: SubstrateView, B: CuratorBackend>(
    view: &V,
    backend: &B,
    a: CuratorPublicV,
    b: CuratorPublicV,
    job: Option<CurationJobV>,
    at: u64,
    seed: u64,
)
    requires
        reordered(a.grounded_in, b.grounded_in),
        b == (CuratorPublicV { grounded_in: b.grounded_in, ..a }),
    ensures
        ({
            let ra = audited(view, backend, a, job, at, seed);
            let rb = audited(view, backend, b, job, at, seed);
            ra == rb
        }),
{
    let (ga, gb) = (a.grounded_in, b.grounded_in);
    lemma_reordered(ga, gb);
    let ma = unknown_of(view, ga, ga.len());
    let mb = unknown_of(view, gb, gb.len());
    lemma_unknown_reordered(view, ga, gb);
    lemma_reordered(ma, mb);
    lemma_sorted_same(ma, mb);
    if ma.len() == 0 {
        if let Some(j) = job {
            if let (Some(s), Some(p)) = (j.subject, j.predicate) {
                let facts = view.facts(s, p);
                lemma_uncited_same(facts, ga, gb, facts.len());
            }
        }
        let independent = independent_of(view, ga, job);
        assert(independent == independent_of(view, gb, job));
        lemma_sorted_same(ga, gb);
        let f = |h: Seq<char>| source_line(view, "cited_source"@, h);
        lemma_map_reordered(ga, gb, f);
        let la = source_lines(view, "cited_source"@, ga);
        let lb = source_lines(view, "cited_source"@, gb);
        let ea = evidence_of(view, a, independent);
        let eb = evidence_of(view, b, independent);
        let rest = source_lines(view, "independent_source"@, independent) + seq![
            "claim: target="@ + a.target_handle + " body="@ + a.body,
            "supports_initiator: structural grounding and schema checks passed"@,
        ];
        assert(ea =~= la + rest);
        assert(eb =~= lb + rest);
        vstd::seq_lib::lemma_multiset_commutative(la, rest);
        vstd::seq_lib::lemma_multiset_commutative(lb, rest);
        assert(ea.to_multiset() =~= eb.to_multiset());
        lemma_sorted_same(ea, eb);
    }
}

/// The list with two items exchanged.
pub open spec fn swapped(s: Seq<Seq<char>>, i: int, j: int) -> Seq<Seq<char>> {
    s.update(i, s[j]).update(j, s[i])
}

/// The list shuffled from place `i` down, as a generator says.
pub open spec fn shuffled(s: Seq<Seq<char>>, i: int, st: u64) -> Seq<Seq<char>>
    decreases i,
{
    if i <= 0 {
        s
    } else {
        let next = next_state(st);
        shuffled(swapped(s, i, draw(next) as int % (i + 1)), i - 1, next)
    }
}

proof fn lemma_swapped(s: Seq<Seq<char>>, i: int, j: int)
    requires
        0 <= i < s.len(),
        0 <= j < s.len(),
    ensures
        reordered(s, swapped(s, i, j)),
        swapped(s, i, j).len() == s.len(),
{
    let a = s.update(i, s[j]);
    vstd::seq_lib::to_multiset_update(s, i, s[j]);
    vstd::seq_lib::to_multiset_update(a, j, s[i]);
    s.to_multiset_ensures();
    a.to_multiset_ensures();
    assert(s.contains(s[i]) && s.contains(s[j]) && a.contains(a[j]));
    assert(swapped(s, i, j).to_multiset() =~= s.to_multiset());
}

/// A shuffle only reorders.
pub proof fn lemma_shuffled(s: Seq<Seq<char>>, i: int, st: u64)
    requires
        i < s.len(),
    ensures
        reordered(s, shuffled(s, i, st)),
    decreases i,
{
    if i > 0 {
        let next = next_state(st);
        let j = draw(next) as int % (i + 1);
        lemma_swapped(s, i, j);
        lemma_shuffled(swapped(s, i, j), i - 1, next);
    }
}

/// The state of the warden.
#[verifier::ext_equal]
pub struct WardenV {
    pub audits: Map<Seq<char>, AuditRecordV>,
    /// The last audit of each output.
    pub by_target: Map<Seq<char>, Seq<char>>,
}

impl WardenV {
    pub open spec fn wf(self) -> bool {
        keyed::<AuditRecord>(self.audits) && forall|t: Seq<char>| #[trigger]
            self.by_target.contains_key(t) ==> self.audits.contains_key(self.by_target[t])
    }

    pub open spec fn empty() -> WardenV {
        WardenV { audits: Map::empty(), by_target: Map::empty() }
    }

    pub open spec fn stored(self, rec: AuditRecordV) -> WardenV {
        WardenV {
            audits: self.audits.insert(rec.judgment_handle, rec),
            by_target: self.by_target.insert(rec.target_output, rec.judgment_handle),
        }
    }

    pub open spec fn stored_all(self, recs: Seq<AuditRecordV>) -> WardenV
        decreases recs.len(),
    {
        if recs.len() == 0 {
            self
        } else {
            self.stored_all(recs.drop_last()).stored(recs.last())
        }
    }

    /// The last audit of an output.
    pub open spec fn audit_for(self, target: Seq<char>) -> Option<AuditRecordV> {
        if self.by_target.contains_key(target) && self.audits.contains_key(
            self.by_target[target],
        ) {
            Some(self.audits[self.by_target[target]])
        } else {
            None
        }
    }

    /// An audit that is kept is the one that a query for its output gives from then on; the
    /// audits of other outputs stay as they were, unless they had the same handle.
    pub proof fn lemma_kept(self, rec: AuditRecordV, q: CborV, backend: Seq<char>, other: Seq<char>)
        requires
            q.text_field("op"@) == Some("audit_for"@),
            q.text_field("target"@) == Some(rec.target_output),
        ensures
            ({
                let now = self.stored(rec);
                &&& now.answer(q, backend) is Ok
                &&& AuditRecordV::read(now.answer(q, backend)->Ok_0) == Ok::<_, ErrV>(rec)
                &&& now.audits.contains_key(rec.judgment_handle)
                    && now.audits[rec.judgment_handle] == rec
                &&& other != rec.target_output && self.by_target.contains_key(other)
                    && self.by_target[other] != rec.judgment_handle ==> now.audit_for(other)
                    == self.audit_for(other)
                &&& other != rec.target_output && !self.by_target.contains_key(other)
                    ==> now.audit_for(other) is None
            }),
    {
        rec.lemma_read_back();
    }

    /// What a query answers.
    pub open spec fn answer(self, q: CborV, backend: Seq<char>) -> Result<CborV, ErrV> {
        let op = q.text_field("op"@);
        if op == Some("audit_for"@) {
            match q.text_field("target"@) {
                None => Err((ErrCode::Internal, missing_text("target"@))),
                Some(t) => match self.audit_for(t) {
                    Some(a) => Ok(a.value()),
                    None => Err((ErrCode::NotFound, "no audit for "@ + t)),
                },
            }
        } else if op == Some("status"@) || op is None {
            Ok(
                map_value(
                    seq![
                        ("audits"@, CborV::U64(self.audits.dom().len() as u64)),
                        ("backend"@, CborV::Text(backend)),
                    ],
                ),
            )
        } else {
            Err((ErrCode::ContractViolation, "warden: unknown op"@))
        }
    }

    pub open spec fn image(self) -> CborV {
        map_value(seq![("audits"@, CborV::Array(record_rows::<AuditRecord>(self.audits)))])
    }

    /// What a snapshot says, and the error that ended its reading.
    pub open spec fn from_image(v: CborV) -> (WardenV, Option<ErrV>) {
        let (recs, e) = list_in::<AuditRecord>(v, "audits"@);
        (WardenV::empty().stored_all(recs), e)
    }

    proof fn lemma_stored_wf(self, recs: Seq<AuditRecordV>)
        requires
            self.wf(),
        ensures
            self.stored_all(recs).wf(),
        decreases recs.len(),
    {
        if recs.len() > 0 {
            self.lemma_stored_wf(recs.drop_last());
        }
    }

    proof fn lemma_stored_at(self, recs: Seq<AuditRecordV>, k: Seq<char>)
        requires
            forall|i: int, j: int|
                0 <= i < j < recs.len() ==> (#[trigger] recs[i]).judgment_handle != (
                #[trigger] recs[j]).judgment_handle,
        ensures
            forall|i: int|
                0 <= i < recs.len() && (#[trigger] recs[i]).judgment_handle == k
                    ==> self.stored_all(recs).audits.contains_key(k) && self.stored_all(
                    recs,
                ).audits[k] == recs[i],
            (forall|i: int| 0 <= i < recs.len() ==> (#[trigger] recs[i]).judgment_handle != k) ==> (
            self.stored_all(recs).audits.contains_key(k) <==> self.audits.contains_key(k)),
        decreases recs.len(),
    {
        if recs.len() > 0 {
            let front = recs.drop_last();
            assert forall|i: int| 0 <= i < front.len() implies front[i] == recs[i] by {}
            self.lemma_stored_at(front, k);
            assert(recs.last() == recs[recs.len() - 1]);
        }
    }

    /// Taking up a snapshot gives every audit back.
    pub proof fn lemma_restore_snapshot(self)
        requires
            self.wf(),
            self.audits.dom().finite(),
        ensures
            WardenV::from_image(self.image()).0.audits == self.audits,
            WardenV::from_image(self.image()).1 is None,
    {
        let v = self.image();
        let o = text_order(self.audits.dom());
        crate::textmap::lemma_finite_listed(self.audits.dom());
        crate::textmap::lemma_listed_finite(o, self.audits.dom());
        let recs = Seq::new(o.len(), |i: int| self.audits[o[i]]);
        reveal_with_fuel(lookup_from, 2);
        assert(v->Pairs_0[0].0 == CborV::Text("audits"@));
        assert(v.field("audits"@) == Some(CborV::Array(record_rows::<AuditRecord>(self.audits))));
        assert(record_rows::<AuditRecord>(self.audits) =~= list_values::<AuditRecord>(recs));
        lemma_list_back::<AuditRecord>(recs);
        assert forall|i: int| 0 <= i < o.len() implies (#[trigger] recs[i]).judgment_handle
            == o[i] by {
            assert(o.contains(o[i]));
            assert(self.audits.dom().contains(o[i]));
            assert(self.audits.contains_key(o[i]));
        }
        let back = WardenV::empty().stored_all(recs).audits;
        assert forall|i: int, j: int| 0 <= i < j < recs.len() implies (
        #[trigger] recs[i]).judgment_handle != (#[trigger] recs[j]).judgment_handle by {
            assert(o[i] != o[j]);
        }
        assert forall|k: Seq<char>| #[trigger] back.contains_key(k) == self.audits.contains_key(k)
            && (back.contains_key(k) ==> back[k] == self.audits[k]) by {
            WardenV::empty().lemma_stored_at(recs, k);
            assert(self.audits.dom().contains(k) <==> o.contains(k));
            if o.contains(k) {
                let i = choose|i: int| 0 <= i < o.len() && o[i] == k;
                assert(recs[i].judgment_handle == k);
            } else {
                assert forall|i: int| 0 <= i < recs.len() implies (
                #[trigger] recs[i]).judgment_handle != k by {
                    assert(o.contains(o[i]));
                }
            }
        }
        assert(back =~= self.audits);
    }
}

/// The flag that a failed judgment gives.
pub open spec fn flag_of(
    at: u64,
    seed: u64,
    target: Seq<char>,
    code: ErrCode,
    message: Seq<char>,
    disputed: Seq<Seq<char>>,
) -> CuratorOutputV {
    let s = seeded(seed ^ at ^ 0x3AD);
    CuratorOutputV {
        public: CuratorPublicV {
            output_handle: "warden/judgment/"@ + minted(at, s),
            operation: if code is HallucinationDetected {
                CuratorOperation::FlagHallucination
            } else {
                CuratorOperation::FlagDrift
            },
            target_handle: target,
            grounded_in: disputed,
            confidence_band: ConfidenceBand::High,
            schema_id: "curator.warden.judgment.v1"@,
            spec_anchor: "WardenCell.md\u{00a7}4"@,
            logical_at: at,
            body: message,
        },
        private: CuratorPrivateV {
            rationale: "deterministic evidence check: "@ + message,
            considered_alts: seq!["pass"@],
            confidence_precise: FLAG_CONFIDENCE,
            reasoning_trace: "code="@ + code.name(),
            private_seed: draw(next_state(next_state(next_state(s)))),
        },
    }
}

/// An optional job as a mathematical object.
pub open spec fn job_view(job: Option<&CurationJob>) -> Option<CurationJobV> {
    match job {
        Some(j) => Some(j.deep_view()),
        None => None,
    }
}

/// The warden.
#[derive(Debug)]
pub struct WardenCell<B: CuratorBackend> {
    id: CellId,
    backend: B,
    audits: TextMap<AuditRecord>,
    by_target: TextMap<String>,
}

impl<B: CuratorBackend> View for WardenCell<B> {
    type V = WardenV;

    closed spec fn view(&self) -> WardenV {
        WardenV { audits: self.audits@, by_target: self.by_target@ }
    }
}

/// The handles that a payload's texts refer to.
pub fn harvest_handles(payload: &Cbor) -> (r: Vec<String>)
    ensures
        text_views(r@) == harvested(payload@),
{
    let mut texts: Vec<&str> = Vec::new();
    payload.collect_texts(&mut texts);
    let ghost all = all_texts(payload@);
    assert(texts.deep_view() =~= all);
    let mut out: Vec<String> = Vec::new();
    assert(text_views(out@) =~= Seq::empty());
    let mut i: usize = 0;
    while i < texts.len()
        invariant
            i <= texts@.len(),
            all == texts.deep_view(),
            text_views(out@) == handles_of(all, i as nat),
        decreases texts.len() - i,
    {
        assert(all[i as int] == texts@[i as int]@);
        harvest_text(texts[i], &mut out);
        i += 1;
    }
    out
}

impl WardenCell<DeterministicBackend> {
    /// A warden that checks evidence and asks no model.
    pub fn new(id: CellId) -> (r: Self)
        ensures
            r.ident() == id,
            r@ == WardenV::empty(),
            r.judge() == DeterministicBackend,
    {
        WardenCell::with_backend(id, DeterministicBackend)
    }
}

/// Whatever a model says, it can only turn a pass into a failure; and where there
/// is nothing to ask it, what it says changes nothing.
pub proof fn lemma_model_only_rejects<V: SubstrateView>(
    view: &V,
    output: CuratorPublicV,
    job: Option<CurationJobV>,
    at: u64,
    seed: u64,
    said: Option<Verdict>,
)
    ensures
        audited_with(view, output, job, at, seed, said).1 is Pass ==> audited_with(
            view,
            output,
            job,
            at,
            seed,
            None,
        ).1 is Pass,
        question_of(view, output, job) is None ==> audited_with(view, output, job, at, seed, said)
            == audited_with(view, output, job, at, seed, None),
{
}

/// What a model has to be asked about an output, if it has to be asked.
pub fn audit_question<V: SubstrateView>(
    view: &V,
    output: &CuratorPublic,
    job: Option<&CurationJob>,
) -> (r: Option<Vec<String>>)
    ensures
        match r {
            Some(e) => question_of(view, output.deep_view(), job_view(job)) == Some(
                text_views(e@),
            ),
            None => question_of(view, output.deep_view(), job_view(job)) is None,
        },
{
    let missing = missing_handles(view, &output.grounded_in);
    assert(text_views(missing@).len() == missing@.len());
    if missing.len() > 0 {
        return None;
    }
    match check_form(view, output) {
        AuditVerdict::Pass => {
            let independent = independent_grounds(view, &output.grounded_in, job);
            let evidence = gather_evidence(view, output, &independent);
            Some(sort_texts(&evidence))
        },
        AuditVerdict::Fail { .. } => None,
    }
}

/// Audits an output, given what a model said, if one was asked.
pub fn audit_with<V: SubstrateView>(
    view: &V,
    output: &CuratorPublic,
    job: Option<&CurationJob>,
    logical_at: u64,
    seed: u64,
    said: Option<Verdict>,
) -> (r: (AuditRecord, AuditVerdict))
    ensures
        (r.0.deep_view(), r.1.deep_view()) == audited_with(
            view,
            output.deep_view(),
            job_view(job),
            logical_at,
            seed,
            said,
        ),
{
    let (judgment_handle, _rng) = mint(
        "warden/judgment/",
        logical_at,
        seed ^ logical_at ^ 0xA0D17,
    );
    let missing = missing_handles(view, &output.grounded_in);
    if missing.len() > 0 {
        let sorted = sort_texts(&missing);
        let list = join_texts(sorted.as_slice(), ", ");
        assert(text_views(sorted@) =~= Seq::new(sorted@.len(), |i: int| sorted@[i]@));
        let rec = AuditRecord {
            judgment_handle,
            target_output: output.output_handle.as_str().to_string(),
            verdict_pass: false,
            independent_grounds: Vec::new(),
            hash_proof: None,
            logical_at,
        };
        assert(text_views(rec.independent_grounds@) =~= Seq::empty());
        return (
            rec,
            AuditVerdict::Fail { reason: cat2("cited grounding missing: ", list.as_str()) },
        );
    }
    let independent = independent_grounds(view, &output.grounded_in, job);
    let hash_proof = if independent.len() == 0 {
        Some(hash_proof_of(view, &output.grounded_in))
    } else {
        None
    };
    let form = check_form(view, output);
    let verdict = match (form, said) {
        (AuditVerdict::Pass, Some(Verdict::AuditorCorrect)) => AuditVerdict::Fail {
            reason: "configured Warden model rejected the Librarian output".to_string(),
        },
        (other, _) => other,
    };
    let verdict_pass: bool = match &verdict {
        AuditVerdict::Pass => true,
        AuditVerdict::Fail { .. } => false,
    };
    let rec = AuditRecord {
        judgment_handle,
        target_output: output.output_handle.as_str().to_string(),
        verdict_pass,
        independent_grounds: independent,
        hash_proof,
        logical_at,
    };
    (rec, verdict)
}

impl<B: CuratorBackend> WardenCell<B> {
    /// The id of the cell.
    pub closed spec fn ident(&self) -> CellId {
        self.id
    }

    /// The backend.
    pub closed spec fn judge(&self) -> B {
        self.backend
    }

    pub fn with_backend(id: CellId, backend: B) -> (r: Self)
        ensures
            r.ident() == id,
            r@ == WardenV::empty(),
            r.judge() == backend,
    {
        WardenCell { id, backend, audits: TextMap::new(), by_target: TextMap::new() }
    }

    pub fn backend_id(&self) -> (r: String)
        ensures
            r@ == self.judge().name(),
    {
        self.backend.backend_id()
    }

    /// Judges a write.
    pub fn judge_envelope<V: SubstrateView>(&self, view: &V, payload: &Cbor) -> (r: UcResult<()>)
        ensures
            agrees(r, judged(view, payload@)),
            r is Ok ==> forall|i: int|
                0 <= i < harvested(payload@).len() ==> view.known(
                    #[trigger] harvested(payload@)[i],
                ),
            r is Err && r->Err_0.code is HallucinationDetected <==> exists|i: int|
                0 <= i < harvested(payload@).len() && !view.known(
                    #[trigger] harvested(payload@)[i],
                ),
    {
        proof {
            lemma_gate_handles(view, payload@);
        }
        let handles = harvest_handles(payload);
        if let Some(h) = unknown_handle(view, &handles) {
            return Err(
                UcError::new(
                    ErrCode::HallucinationDetected,
                    cat2("payload references nonexistent handle ", h.as_str()).as_str(),
                ),
            );
        }
        let s = match payload.opt_str("subject") {
            Some(x) => x,
            None => {
                return Ok(());
            },
        };
        let p = match payload.opt_str("predicate") {
            Some(x) => x,
            None => {
                return Ok(());
            },
        };
        let o = match payload.opt_str("object") {
            Some(x) => x,
            None => {
                return Ok(());
            },
        };
        if payload.opt_str("supersedes").is_some() || payload.opt_str(
            "supersedes_decision",
        ).is_some() {
            return Ok(());
        }
        let facts = view.active_sp(s.as_str(), p.as_str());
        let ghost all = facts.deep_view();
        let mut other: Vec<String> = Vec::new();
        assert(text_views(other@) =~= Seq::empty());
        let mut i: usize = 0;
        while i < facts.len()
            invariant
                i <= facts@.len(),
                all == facts.deep_view(),
                text_views(other@) == conflicts(all, o@, i as nat),
            decreases facts.len() - i,
        {
            assert(all[i as int] == (facts@[i as int].0@, facts@[i as int].1@));
            if !str_eq(facts[i].1.as_str(), o.as_str()) {
                let ghost before = text_views(other@);
                let h = facts[i].0.as_str().to_string();
                other.push(h);
                assert(text_views(other@) =~= before.push(h@));
            }
            i += 1;
        }
        if other.len() > 0 {
            let list = join_texts(other.as_slice(), ", ");
            assert(text_views(other@) =~= Seq::new(other@.len(), |i: int| other@[i]@));
            let mut m = String::new();
            m.append("write to occupied slot (");
            m.append(s.as_str());
            m.append(", ");
            m.append(p.as_str());
            m.append(") conflicts with active ");
            m.append(list.as_str());
            m.append(" and declares no supersede");
            assert(m@ =~= "write to occupied slot ("@ + s@ + ", "@ + p@
                + ") conflicts with active "@ + list@ + " and declares no supersede"@);
            return Err(UcError::new(ErrCode::SemanticDrift, m.as_str()));
        }
        Ok(())
    }

    /// The flag that a failed judgment gives.
    pub fn flag_from_error(
        &self,
        logical_at: u64,
        seed: u64,
        target: &str,
        err: &UcError,
        disputed_handles: Vec<String>,
    ) -> (r: CuratorOutput)
        ensures
            r.deep_view() == flag_of(
                logical_at,
                seed,
                target@,
                err.code,
                err.message@,
                text_views(disputed_handles@),
            ),
    {
        let (output_handle, mut rng) = mint(
            "warden/judgment/",
            logical_at,
            seed ^ logical_at ^ 0x3AD,
        );
        let operation = if err.code == ErrCode::HallucinationDetected {
            CuratorOperation::FlagHallucination
        } else {
            CuratorOperation::FlagDrift
        };
        let public = CuratorPublic {
            output_handle,
            operation,
            target_handle: target.to_string(),
            grounded_in: disputed_handles,
            confidence_band: ConfidenceBand::High,
            schema_id: "curator.warden.judgment.v1".to_string(),
            spec_anchor: "WardenCell.md\u{00a7}4".to_string(),
            logical_at,
            body: err.message.as_str().to_string(),
        };
        let private = CuratorPrivate {
            rationale: cat2("deterministic evidence check: ", err.message.as_str()),
            considered_alts: vec!["pass".to_string()],
            confidence_precise: FLAG_CONFIDENCE,
            reasoning_trace: cat2("code=", err.code.as_str()),
            private_seed: rng.next_u64(),
        };
        let out = CuratorOutput { public, private };
        assert(out.deep_view() =~= flag_of(
            logical_at,
            seed,
            target@,
            err.code,
            err.message@,
            text_views(disputed_handles@),
        ));
        out
    }

    /// Audits an output and keeps the record.
    pub fn audit_librarian<V: SubstrateView>(
        &mut self,
        view: &V,
        output: &CuratorPublic,
        job: Option<&CurationJob>,
        logical_at: u64,
        seed: u64,
    ) -> (r: (AuditRecord, AuditVerdict))
        ensures
            final(self).ident() == old(self).ident(),
            final(self).judge() == old(self).judge(),
            (r.0.deep_view(), r.1.deep_view()) == audited(
                view,
                &old(self).judge(),
                output.deep_view(),
                job_view(job),
                logical_at,
                seed,
            ),
            final(self)@ == old(self)@.stored(r.0.deep_view()),
            old(self)@.wf() ==> final(self)@.wf(),
    {
        let (rec, verdict) = self.audit_librarian_preview(view, output, job, logical_at, seed);
        self.replay_audit(rec.clone());
        (rec, verdict)
    }

    /// Audits an output without keeping the record.
    pub fn audit_librarian_preview<V: SubstrateView>(
        &self,
        view: &V,
        output: &CuratorPublic,
        job: Option<&CurationJob>,
        logical_at: u64,
        seed: u64,
    ) -> (r: (AuditRecord, AuditVerdict))
        ensures
            (r.0.deep_view(), r.1.deep_view()) == audited(
                view,
                &self.judge(),
                output.deep_view(),
                job_view(job),
                logical_at,
                seed,
            ),
    {
        let said = if str_eq(self.backend.backend_id().as_str(), "deterministic.v1") {
            None
        } else {
            match audit_question(view, output, job) {
                Some(evidence) => Some(
                    self.backend.adjudicate(seed, output.body.as_str(), &evidence),
                ),
                None => None,
            }
        };
        audit_with(view, output, job, logical_at, seed, said)
    }

    /// Audits an output twice on one picture of the public evidence, the second
    /// time with its citations shuffled: the order must not matter.
    pub fn blind_reaudit<V: SubstrateView>(
        &self,
        view: &V,
        output: &CuratorPublic,
        job: Option<&CurationJob>,
        logical_at: u64,
        seed: u64,
    ) -> (r: (AuditVerdict, AuditVerdict))
        ensures
            exists|frozen: FrozenPublicView| #[trigger]
                frozen@ == picture(view, output.deep_view(), job_view(job)) && ({
                    let o = output.deep_view();
                    let mixed = CuratorPublicV {
                        grounded_in: shuffled(
                            o.grounded_in,
                            o.grounded_in.len() - 1,
                            seeded(seed ^ 0xB11D),
                        ),
                        ..o
                    };
                    let j = job_view(job);
                    &&& r.0.deep_view() == audited(&frozen, &self.judge(), o, j, logical_at, seed).1
                    &&& r.1.deep_view() == audited(
                        &frozen,
                        &self.judge(),
                        mixed,
                        j,
                        logical_at,
                        seed,
                    ).1
                }),
            r.0.deep_view() == r.1.deep_view(),
    {
        let frozen = FrozenPublicView::capture(view, output, job);
        let (_, original) = self.audit_librarian_preview(&frozen, output, job, logical_at, seed);
        let mut mixed = output.clone();
        shuffle(&mut mixed.grounded_in, seed ^ 0xB11D);
        let (_, again) = self.audit_librarian_preview(&frozen, &mixed, job, logical_at, seed);
        proof {
            let o = output.deep_view();
            lemma_shuffled(o.grounded_in, o.grounded_in.len() - 1, seeded(seed ^ 0xB11D));
            lemma_order_insensitive(
                &frozen,
                &self.backend,
                o,
                mixed.deep_view(),
                job_view(job),
                logical_at,
                seed,
            );
        }
        (original, again)
    }

    /// Keeps a record.
    pub fn replay_audit(&mut self, rec: AuditRecord)
        ensures
            final(self).ident() == old(self).ident(),
            final(self).judge() == old(self).judge(),
            final(self)@ == old(self)@.stored(rec.deep_view()),
            old(self)@.wf() ==> final(self)@.wf(),
    {
        let ghost was = self@;
        let target = rec.target_output.clone();
        let handle = rec.judgment_handle.clone();
        self.by_target.insert(target, handle);
        let key = rec.judgment_handle.clone();
        self.audits.insert(key, rec);
        assert(self@ =~= was.stored(rec.deep_view()));
    }

    pub fn audit_for_target(&self, target: &str) -> (r: Option<&AuditRecord>)
        ensures
            match r {
                Some(a) => self@.audit_for(target@) == Some(a.deep_view()),
                None => self@.audit_for(target@) is None,
            },
    {
        match self.by_target.get(target) {
            Some(j) => self.audits.get(j.as_str()),
            None => None,
        }
    }

    pub fn audit_count(&self) -> (r: usize)
        ensures
            r == self@.audits.dom().len(),
    {
        self.audits.len()
    }
}

fn missing_handles<V: SubstrateView>(view: &V, hs: &Vec<String>) -> (r: Vec<String>)
    ensures
        text_views(r@) == unknown_of(view, text_views(hs@), hs@.len()),
{
    let ghost all = text_views(hs@);
    let mut out: Vec<String> = Vec::new();
    assert(text_views(out@) =~= Seq::empty());
    let mut i: usize = 0;
    while i < hs.len()
        invariant
            i <= hs@.len(),
            all == text_views(hs@),
            text_views(out@) == unknown_of(view, all, i as nat),
        decreases hs.len() - i,
    {
        assert(all[i as int] == hs@[i as int]@);
        if !view.handle_exists(hs[i].as_str()) {
            let ghost before = text_views(out@);
            let h = hs[i].as_str().to_string();
            out.push(h);
            assert(text_views(out@) =~= before.push(h@));
        }
        i += 1;
    }
    out
}

fn independent_grounds<V: SubstrateView>(
    view: &V,
    cited: &Vec<String>,
    job: Option<&CurationJob>,
) -> (r: Vec<String>)
    ensures
        text_views(r@) == independent_of(view, text_views(cited@), job_view(job)),
{
    let mut out: Vec<String> = Vec::new();
    assert(text_views(out@) =~= Seq::empty());
    if let Some(j) = job {
        if let (Some(s), Some(p)) = (&j.subject, &j.predicate) {
            let facts = view.active_sp(s.as_str(), p.as_str());
            let ghost all = facts.deep_view();
            let mut i: usize = 0;
            while i < facts.len()
                invariant
                    i <= facts@.len(),
                    all == facts.deep_view(),
                    text_views(out@) == uncited(all, text_views(cited@), i as nat),
                decreases facts.len() - i,
            {
                assert(all[i as int] == (facts@[i as int].0@, facts@[i as int].1@));
                if !among(cited, facts[i].0.as_str()) && !among(&out, facts[i].0.as_str()) {
                    let ghost before = text_views(out@);
                    let h = facts[i].0.as_str().to_string();
                    out.push(h);
                    assert(text_views(out@) =~= before.push(h@));
                }
                i += 1;
            }
        }
    }
    out
}

fn hash_proof_of<V: SubstrateView>(view: &V, cited: &Vec<String>) -> (r: String)
    ensures
        r@ == proof_of(view, text_views(cited@)),
{
    let sorted = sort_texts(cited);
    let ghost all = text_views(sorted@);
    let mut buf: Vec<u8> = Vec::new();
    let mut i: usize = 0;
    while i < sorted.len()
        invariant
            i <= sorted@.len(),
            all == text_views(sorted@),
            buf@ == proof_input(view, all, i as nat),
        decreases sorted.len() - i,
    {
        let h = &sorted[i];
        assert(all[i as int] == h@);
        let ghost before = buf@;
        push_all(&mut buf, h.as_str().as_bytes());
        buf.push(0);
        if let Some(t) = view.public_text(h.as_str()) {
            push_all(&mut buf, t.as_str().as_bytes());
        }
        buf.push(0xFF);
        i += 1;
        assert(buf@ =~= proof_input(view, all, i as nat));
    }
    hex(&sha256(buf.as_slice()))
}

fn check_form<V: SubstrateView>(view: &V, output: &CuratorPublic) -> (r: AuditVerdict)
    ensures
        r.deep_view() == form_verdict(view, output.deep_view()),
{
    let handles = harvest_handles(&Cbor::t(output.body.as_str()));
    if let Some(h) = unknown_handle(view, &handles) {
        return AuditVerdict::Fail {
            reason: cat2("output body references nonexistent ", h.as_str()),
        };
    }
    if output.operation == CuratorOperation::Skeleton && chars_of(
        trim_text(output.body.as_str()).as_str(),
    ).len() == 0 {
        AuditVerdict::Fail { reason: "empty skeleton".to_string() }
    } else if output.operation == CuratorOperation::SupersedeProposal && output.grounded_in.len()
        < 2 {
        AuditVerdict::Fail {
            reason: "supersede proposal must ground old and new handles".to_string(),
        }
    } else {
        AuditVerdict::Pass
    }
}

fn push_sources<V: SubstrateView>(view: &V, label: &str, hs: &Vec<String>, out: &mut Vec<String>)
    ensures
        text_views(final(out)@) == text_views(old(out)@) + source_lines(
            view,
            label@,
            text_views(hs@),
        ),
{
    let ghost first = text_views(out@);
    let ghost all = text_views(hs@);
    let ghost want = source_lines(view, label@, all);
    let mut i: usize = 0;
    assert(text_views(out@) =~= first + want.take(0));
    while i < hs.len()
        invariant
            i <= hs@.len(),
            all == text_views(hs@),
            want == source_lines(view, label@, all),
            text_views(out@) == first + want.take(i as int),
        decreases hs.len() - i,
    {
        let h = hs[i].as_str();
        assert(all[i as int] == h@);
        let mut line = String::new();
        match view.public_text(h) {
            Some(t) => {
                line.append("supports_initiator: ");
                line.append(label);
                line.append(" ");
                line.append(h);
                line.append(": ");
                line.append(t.as_str());
            },
            None => {
                line.append("supports_auditor: ");
                line.append(label);
                line.append(" ");
                line.append(h);
                line.append(" has no public text");
            },
        }
        assert(line@ =~= source_line(view, label@, h@));
        let ghost before = text_views(out@);
        out.push(line);
        assert(text_views(out@) =~= before.push(line@));
        i += 1;
        assert(want.take(i as int) =~= want.take(i - 1).push(want[i - 1]));
        assert(text_views(out@) =~= first + want.take(i as int));
    }
    assert(want.take(want.len() as int) =~= want);
}

fn gather_evidence<V: SubstrateView>(
    view: &V,
    output: &CuratorPublic,
    independent: &Vec<String>,
) -> (r: Vec<String>)
    ensures
        text_views(r@) == evidence_of(view, output.deep_view(), text_views(independent@)),
{
    let mut out: Vec<String> = Vec::new();
    push_sources(view, "cited_source", &output.grounded_in, &mut out);
    push_sources(view, "independent_source", independent, &mut out);
    out.push(
        cat4(
            "claim: target=",
            output.target_handle.as_str(),
            " body=",
            output.body.as_str(),
        ),
    );
    out.push("supports_initiator: structural grounding and schema checks passed".to_string());
    assert(text_views(out@) =~= evidence_of(
        view,
        output.deep_view(),
        text_views(independent@),
    ));
    out
}

fn shuffle(items: &mut Vec<String>, seed: u64)
    ensures
        text_views(final(items)@) == shuffled(
            text_views(old(items)@),
            old(items)@.len() - 1,
            seeded(seed),
        ),
{
    let ghost first = text_views(items@);
    let ghost want = shuffled(first, items@.len() - 1, seeded(seed));
    let n: usize = items.len();
    if n < 2 {
        return ;
    }
    let mut rng = DetRng::new(seed);
    let mut i: usize = n - 1;
    while i > 0
        invariant
            i < n == items@.len(),
            want == shuffled(text_views(items@), i as int, rng@),
        decreases i,
    {
        let j: usize = rng.next_range(i as u64 + 1) as usize;
        let ghost before = text_views(items@);
        let a = items[i].as_str().to_string();
        let b = items[j].as_str().to_string();
        items.set(i, b);
        items.set(j, a);
        assert(text_views(items@) =~= swapped(before, i as int, j as int));
        i -= 1;
    }
}

/// What the warden's model is asked about an output; nothing where there is no
/// model, or the output fails by itself.
pub open spec fn asked_about<V: SubstrateView>(
    w: Worker,
    view: &V,
    output: CuratorPublicV,
    job: Option<CurationJobV>,
    seed: u64,
) -> Option<Seq<Seq<char>>> {
    match (w.model, question_of(view, output, job)) {
        (Some(m), Some(evidence)) => Some(m.asks_verdict(seed, output.body, evidence)),
        _ => None,
    }
}

impl WardenCell<Worker> {
    /// The arguments by which the external model has to be asked before an output
    /// is audited, if it has to be.
    pub fn asks<V: SubstrateView>(
        &self,
        view: &V,
        output: &CuratorPublic,
        job: Option<&CurationJob>,
        seed: u64,
    ) -> (r: Option<Vec<String>>)
        ensures
            match r {
                Some(a) => asked_about(
                    self.judge(),
                    view,
                    output.deep_view(),
                    job_view(job),
                    seed,
                ) == Some(text_views(a@)),
                None => asked_about(
                    self.judge(),
                    view,
                    output.deep_view(),
                    job_view(job),
                    seed,
                ) is None,
            },
    {
        match (&self.backend.model, audit_question(view, output, job)) {
            (Some(m), Some(evidence)) => Some(
                m.adjudicate_args(seed, output.body.as_str(), &evidence),
            ),
            _ => None,
        }
    }

    /// Takes up an exchange with the external model.
    pub fn hear(&mut self, heard: Exchange)
        ensures
            final(self).ident() == old(self).ident(),
            final(self)@ == old(self)@,
            final(self).judge() == (Worker { heard: Some(heard), ..old(self).judge() }),
    {
        self.backend.heard = Some(heard);
    }
}

/// An audit goes by what the model answered to what the warden asks it.
pub proof fn lemma_answer_is_the_verdict<V: SubstrateView>(
    w: Worker,
    view: &V,
    output: CuratorPublicV,
    job: Option<CurationJobV>,
    at: u64,
    seed: u64,
    heard: Exchange,
)
    requires
        asked_about(w, view, output, job, seed) == Some(text_views(heard.asked@)),
    ensures
        audited(view, &(Worker { heard: Some(heard), ..w }), output, job, at, seed) == audited_with(
            view,
            output,
            job,
            at,
            seed,
            Some(
                match heard.answer {
                    Some(s) => match named_verdict(s@) {
                        Some(v) => v,
                        None => tally(seed, output.body, question_of(view, output, job)->0),
                    },
                    None => tally(seed, output.body, question_of(view, output, job)->0),
                },
            ),
        ),
{
    let n = (Worker { heard: Some(heard), ..w }).name();
    reveal_strlit("gguf.");
    reveal_strlit("deterministic.v1");
    assert(n[0] == 'g');
    assert("deterministic.v1"@[0] == 'd');
}

impl<B: CuratorBackend> CellBehavior for WardenCell<B> {
    open spec fn wf(&self) -> bool {
        self@.wf()
    }

    open spec fn accepts(&self, logical_at: u64, update: CborV) -> bool {
        true
    }

    open spec fn restorable(state: CborV) -> bool {
        true
    }

    fn cell_id(&self) -> (r: CellId)
        ensures
            r == self.ident(),
    {
        self.id
    }

    fn cell_type(&self) -> (r: CellType)
        ensures
            r == CellType::Warden,
    {
        CellType::Warden
    }

    fn schema_id(&self) -> (r: SchemaId)
        ensures
            r.0@ == "curator.warden.v1"@,
    {
        SchemaId::new("curator.warden.v1")
    }

    fn on_query(&self, _at: u64, query: &Cbor) -> (r: UcResult<Cbor>)
        ensures
            agrees(r, self@.answer(query@, self.judge().name())),
    {
        let op = query.opt_str("op");
        let (audit_for, status) = match &op {
            Some(t) => (str_eq(t.as_str(), "audit_for"), str_eq(t.as_str(), "status")),
            None => (false, true),
        };
        if audit_for {
            let target: String = match query.req_str("target") {
                Ok(x) => x,
                Err(e) => {
                    return Err(e);
                },
            };
            match self.audit_for_target(target.as_str()) {
                Some(a) => Ok(a.to_cbor()),
                None => Err(
                    UcError::not_found(cat2("no audit for ", target.as_str()).as_str()),
                ),
            }
        } else if status {
            Ok(
                Cbor::map2(
                    "audits",
                    Cbor::U64(self.audits.len() as u64),
                    "backend",
                    Cbor::t(self.backend_id().as_str()),
                ),
            )
        } else {
            Err(UcError::schema("warden: unknown op"))
        }
    }

    fn on_update(&mut self, _at: u64, _update: &Cbor) -> (r: UcResult<Cbor>)
        ensures
            *final(self) == *old(self),
            agrees(
                r,
                Err(
                    (
                        ErrCode::ContractViolation,
                        "warden state mutates via audit flow, not direct writes"@,
                    ),
                ),
            ),
    {
        Err(UcError::schema("warden state mutates via audit flow, not direct writes"))
    }

    fn snapshot_state(&self) -> (r: Cbor)
        ensures
            r@ == self@.image(),
            self@.audits.dom().finite(),
    {
        Cbor::map1("audits", Cbor::arr(to_rows(&self.audits)))
    }

    fn restore_state(&mut self, state: &Cbor) -> (r: UcResult<()>)
        ensures
            final(self).ident() == old(self).ident(),
            final(self).judge() == old(self).judge(),
            final(self)@ == WardenV::from_image(state@).0,
            agrees(r, done(WardenV::from_image(state@).1)),
    {
        self.audits = TextMap::new();
        self.by_target = TextMap::new();
        let (recs, outcome) = from_list::<AuditRecord>(state, "audits");
        let ghost all = recs.deep_view();
        let mut i: usize = 0;
        assert(self@ =~= WardenV::empty());
        assert(all.take(0) =~= Seq::empty());
        while i < recs.len()
            invariant
                i <= recs@.len(),
                all == recs.deep_view(),
                self.ident() == old(self).ident(),
                self.judge() == old(self).judge(),
                self@ == WardenV::empty().stored_all(all.take(i as int)),
                self@.wf(),
            decreases recs.len() - i,
        {
            assert(all.take(i + 1).drop_last() =~= all.take(i as int));
            assert(all[i as int] == recs@[i as int].deep_view());
            self.replay_audit(recs[i].clone());
            i += 1;
        }
        assert(all.take(i as int) =~= all);
        outcome
    }
}

} // verus!
