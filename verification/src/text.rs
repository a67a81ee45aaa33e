//! Text and byte-string helpers: equality, ordering, searching, splitting and
//! number formatting over `str`, each tied to the sequence it denotes.

use vstd::prelude::*;
use vstd::utf8::{encode_utf8, decode_utf8, valid_utf8, encode_utf8_decode_utf8};
use vstd::string::StringSliceAdditionalSpecFns;

verus! {

/// `String::push` appends one character to the end of the string.
pub assume_specification[ String::push ](s: &mut String, c: char)
    ensures
        final(s)@ == old(s)@.push(c),
;

/// Wraps `String::from_utf8`: the bytes become a string exactly when they are
/// valid UTF-8, and the string then holds the characters they encode.
#[verifier::external_body]
pub(crate) fn utf8_string(bytes: Vec<u8>) -> (r: Option<String>)
    ensures
        r is Some <==> valid_utf8(bytes@),
        r is Some ==> r->0@ == decode_utf8(bytes@),
{
    String::from_utf8(bytes).ok()
}

/// Lexicographic order on byte strings; a proper prefix comes first.
pub open spec fn lex_lt(a: Seq<u8>, b: Seq<u8>) -> bool
    decreases a.len(),
{
    if b.len() == 0 {
        false
    } else if a.len() == 0 {
        true
    } else if a[0] != b[0] {
        a[0] < b[0]
    } else {
        lex_lt(a.skip(1), b.skip(1))
    }
}

/// The order of texts: that of their UTF-8 bytes.
pub open spec fn text_lt(a: Seq<char>, b: Seq<char>) -> bool {
    lex_lt(encode_utf8(a), encode_utf8(b))
}

/// No byte string comes before itself.
pub proof fn lemma_lex_irreflexive(a: Seq<u8>)
    ensures
        !lex_lt(a, a),
    decreases a.len(),
{
    if a.len() > 0 {
        lemma_lex_irreflexive(a.skip(1));
    }
}

/// The byte order is transitive.
pub proof fn lemma_lex_transitive(a: Seq<u8>, b: Seq<u8>, c: Seq<u8>)
    requires
        lex_lt(a, b),
        lex_lt(b, c),
    ensures
        lex_lt(a, c),
    decreases a.len(),
{
    if a.len() > 0 && a[0] == b[0] && b[0] == c[0] {
        lemma_lex_transitive(a.skip(1), b.skip(1), c.skip(1));
    }
}

/// Of two different byte strings one comes first.
pub proof fn lemma_lex_total(a: Seq<u8>, b: Seq<u8>)
    ensures
        a == b || lex_lt(a, b) || lex_lt(b, a),
    decreases a.len(),
{
    if a.len() > 0 && b.len() > 0 && a[0] == b[0] {
        lemma_lex_total(a.skip(1), b.skip(1));
        if a.skip(1) == b.skip(1) {
            assert(a =~= seq![a[0]] + a.skip(1));
            assert(b =~= seq![b[0]] + b.skip(1));
        }
    } else if a.len() == 0 && b.len() == 0 {
        assert(a =~= b);
    }
}

/// Two texts with the same bytes are the same text.
pub proof fn lemma_utf8_injective(a: Seq<char>, b: Seq<char>)
    requires
        encode_utf8(a) == encode_utf8(b),
    ensures
        a == b,
{
    encode_utf8_decode_utf8(a);
    encode_utf8_decode_utf8(b);
}

/// No text comes before itself.
pub proof fn lemma_text_irreflexive(a: Seq<char>)
    ensures
        !text_lt(a, a),
{
    lemma_lex_irreflexive(encode_utf8(a));
}

/// The text order is transitive.
pub proof fn lemma_text_transitive(a: Seq<char>, b: Seq<char>, c: Seq<char>)
    requires
        text_lt(a, b),
        text_lt(b, c),
    ensures
        text_lt(a, c),
{
    lemma_lex_transitive(encode_utf8(a), encode_utf8(b), encode_utf8(c));
}

/// Of two different texts one comes first.
pub proof fn lemma_text_total(a: Seq<char>, b: Seq<char>)
    ensures
        a == b || text_lt(a, b) || text_lt(b, a),
{
    lemma_lex_total(encode_utf8(a), encode_utf8(b));
    if encode_utf8(a) == encode_utf8(b) {
        lemma_utf8_injective(a, b);
    }
}

/// Whether two byte strings are equal.
pub fn bytes_eq(a: &[u8], b: &[u8]) -> (r: bool)
    ensures
        r == (a@ == b@),
{
    if a.len() != b.len() {
        return false;
    }
    let mut i: usize = 0;
    while i < a.len()
        invariant
            i <= a.len(),
            a.len() == b.len(),
            forall|j: int| 0 <= j < i ==> a@[j] == b@[j],
        decreases a.len() - i,
    {
        if a[i] != b[i] {
            return false;
        }
        i += 1;
    }
    assert(a@ =~= b@);
    true
}

/// Whether `a` comes before `b` in byte order.
pub fn bytes_before(a: &[u8], b: &[u8]) -> (r: bool)
    ensures
        r == lex_lt(a@, b@),
{
    let mut i: usize = 0;
    proof {
        assert(a@.skip(0) =~= a@);
        assert(b@.skip(0) =~= b@);
    }
    while i < a.len() && i < b.len()
        invariant
            i <= a.len(),
            i <= b.len(),
            lex_lt(a@, b@) == lex_lt(a@.skip(i as int), b@.skip(i as int)),
        decreases a.len() - i,
    {
        let ghost sa = a@.skip(i as int);
        let ghost sb = b@.skip(i as int);
        assert(sa[0] == a@[i as int] && sb[0] == b@[i as int]);
        if a[i] != b[i] {
            return a[i] < b[i];
        }
        assert(sa.skip(1) =~= a@.skip(i + 1));
        assert(sb.skip(1) =~= b@.skip(i + 1));
        i += 1;
    }
    i < b.len()
}

/// Whether two texts are equal.
pub fn str_eq(a: &str, b: &str) -> (r: bool)
    ensures
        r == (a@ == b@),
{
    let r = bytes_eq(a.as_bytes(), b.as_bytes());
    proof {
        if encode_utf8(a@) == encode_utf8(b@) {
            lemma_utf8_injective(a@, b@);
        }
    }
    r
}

/// Whether `a` comes before `b` in text order.
pub fn str_before(a: &str, b: &str) -> (r: bool)
    ensures
        r == text_lt(a@, b@),
{
    bytes_before(a.as_bytes(), b.as_bytes())
}

/// The characters of a text.
pub fn chars_of(s: &str) -> (r: Vec<char>)
    ensures
        r@ == s@,
{
    let mut out: Vec<char> = Vec::new();
    for c in it: s.chars()
        invariant
            it.seq() == s@,
            out@ == s@.take(it.index() as int),
    {
        out.push(c);
    }
    assert(s@.take(s@.len() as int) =~= s@);
    out
}

/// The text made of the given characters.
pub fn string_of(chars: &[char]) -> (r: String)
    ensures
        r@ == chars@,
{
    let mut out = String::new();
    let mut i: usize = 0;
    while i < chars.len()
        invariant
            i <= chars.len(),
            out@ == chars@.take(i as int),
        decreases chars.len() - i,
    {
        out.push(chars[i]);
        i += 1;
        assert(chars@.take(i as int) =~= chars@.take(i - 1).push(chars@[i - 1]));
    }
    assert(chars@.take(chars@.len() as int) =~= chars@);
    out
}

/// The characters that Unicode calls white space.
pub open spec fn is_space(c: char) -> bool {
    let u = c as u32;
    9 <= u <= 13 || u == 0x20 || u == 0x85 || u == 0xA0 || u == 0x1680 || 0x2000 <= u <= 0x200A || u
        == 0x2028 || u == 0x2029 || u == 0x202F || u == 0x205F || u == 0x3000
}

/// Whether a character is white space.
pub fn space(c: char) -> (r: bool)
    ensures
        r == is_space(c),
{
    let u: u32 = c as u32;
    (9 <= u && u <= 13) || u == 0x20 || u == 0x85 || u == 0xA0 || u == 0x1680 || (0x2000 <= u && u
        <= 0x200A) || u == 0x2028 || u == 0x2029 || u == 0x202F || u == 0x205F || u == 0x3000
}

/// The text without its leading white space.
pub open spec fn trim_front(s: Seq<char>) -> Seq<char>
    decreases s.len(),
{
    if s.len() > 0 && is_space(s[0]) {
        trim_front(s.skip(1))
    } else {
        s
    }
}

/// The text without its trailing white space.
pub open spec fn trim_back(s: Seq<char>) -> Seq<char>
    decreases s.len(),
{
    if s.len() > 0 && is_space(s.last()) {
        trim_back(s.drop_last())
    } else {
        s
    }
}

/// The text without white space at either end.
pub open spec fn trimmed(s: Seq<char>) -> Seq<char> {
    trim_back(trim_front(s))
}

/// Trimming takes nothing more away the second time, and never lengthens.
pub proof fn lemma_trimmed(s: Seq<char>)
    ensures
        trimmed(s).len() <= s.len(),
        trimmed(trimmed(s)) == trimmed(s),
        trimmed(s).len() > 0 ==> !is_space(trimmed(s)[0]) && !is_space(trimmed(s).last()),
{
    lemma_trim_front(s);
    lemma_trim_back(trim_front(s));
    lemma_trim_front(trimmed(s));
    lemma_trim_back(trimmed(s));
}

/// Trimming takes off the white space at either end and nothing else: what is left
/// stands in the text, and all around it is white space. Nothing is left exactly of
/// a text that is white space throughout.
pub proof fn lemma_trimmed_within(s: Seq<char>)
    ensures
        exists|i: int| #[trigger]
            occurs_at(s, trimmed(s), i) && (forall|k: int| 0 <= k < i ==> is_space(#[trigger] s[k]))
                && (forall|k: int|
                i + trimmed(s).len() <= k < s.len() ==> is_space(#[trigger] s[k])),
        trimmed(s).len() == 0 <==> forall|k: int| 0 <= k < s.len() ==> is_space(#[trigger] s[k]),
{
    let f = trim_front(s);
    let t = trimmed(s);
    lemma_front_within(s);
    lemma_back_within(f);
    lemma_trimmed(s);
    let i = s.len() - f.len();
    assert(s.skip(i) == f);
    assert(f.take(t.len() as int) == t);
    assert(s.subrange(i, i + t.len()) =~= t);
    assert(occurs_at(s, t, i));
    assert forall|k: int| i + t.len() <= k < s.len() implies is_space(#[trigger] s[k]) by {
        assert(f[k - i] == s[k]);
    }
    if t.len() > 0 {
        assert(s[i] == t[0]);
    }
}

proof fn lemma_front_within(s: Seq<char>)
    ensures
        trim_front(s).len() <= s.len(),
        s.skip(s.len() - trim_front(s).len()) == trim_front(s),
        forall|k: int| 0 <= k < s.len() - trim_front(s).len() ==> is_space(#[trigger] s[k]),
    decreases s.len(),
{
    if s.len() > 0 && is_space(s[0]) {
        let t = s.skip(1);
        let f = trim_front(s);
        lemma_front_within(t);
        assert(s.skip(s.len() - f.len()) =~= t.skip(t.len() - f.len()));
        assert forall|k: int| 0 <= k < s.len() - f.len() implies is_space(#[trigger] s[k]) by {
            if k > 0 {
                assert(t[k - 1] == s[k]);
            }
        }
    } else {
        assert(s.skip(0) =~= s);
    }
}

proof fn lemma_back_within(s: Seq<char>)
    ensures
        trim_back(s).len() <= s.len(),
        s.take(trim_back(s).len() as int) == trim_back(s),
        forall|k: int| trim_back(s).len() <= k < s.len() ==> is_space(#[trigger] s[k]),
    decreases s.len(),
{
    if s.len() > 0 && is_space(s.last()) {
        let t = s.drop_last();
        let b = trim_back(s);
        lemma_back_within(t);
        assert(s.take(b.len() as int) =~= t.take(b.len() as int));
        assert forall|k: int| b.len() <= k < s.len() implies is_space(#[trigger] s[k]) by {
            if k < t.len() {
                assert(t[k] == s[k]);
            }
        }
    } else {
        assert(s.take(s.len() as int) =~= s);
    }
}

proof fn lemma_trim_front(s: Seq<char>)
    ensures
        trim_front(s).len() <= s.len(),
        trim_front(s).len() > 0 ==> !is_space(trim_front(s)[0]),
        s.len() > 0 && !is_space(s[0]) ==> trim_front(s) == s,
    decreases s.len(),
{
    if s.len() > 0 && is_space(s[0]) {
        lemma_trim_front(s.skip(1));
    }
}

proof fn lemma_trim_back(s: Seq<char>)
    ensures
        trim_back(s).len() <= s.len(),
        trim_back(s).len() > 0 ==> !is_space(trim_back(s).last()) && trim_back(s)[0] == s[0],
        s.len() > 0 && !is_space(s.last()) ==> trim_back(s) == s,
    decreases s.len(),
{
    if s.len() > 0 && is_space(s.last()) {
        lemma_trim_back(s.drop_last());
    }
}

/// A copy of the characters from `from` up to `to`.
pub fn chars_between(s: &[char], from: usize, to: usize) -> (r: Vec<char>)
    requires
        from <= to <= s@.len(),
    ensures
        r@ == s@.subrange(from as int, to as int),
{
    let mut out: Vec<char> = Vec::new();
    let mut i: usize = from;
    while i < to
        invariant
            from <= i <= to <= s@.len(),
            out@ == s@.subrange(from as int, i as int),
        decreases to - i,
    {
        out.push(s[i]);
        i += 1;
        assert(out@ =~= s@.subrange(from as int, i as int));
    }
    out
}

/// The characters without white space at either end.
pub fn trim_chars(s: &[char]) -> (r: Vec<char>)
    ensures
        r@ == trimmed(s@),
{
    let mut a: usize = 0;
    let mut b: usize = s.len();
    assert(s@.skip(0) =~= s@);
    while a < b && space(s[a])
        invariant
            a <= b == s@.len(),
            trim_front(s@) == trim_front(s@.skip(a as int)),
        decreases b - a,
    {
        assert(s@.skip(a as int).skip(1) =~= s@.skip(a + 1));
        a += 1;
    }
    let ghost f = s@.skip(a as int);
    assert(trim_front(s@) == f);
    assert(f =~= s@.subrange(a as int, b as int));
    while b > a && space(s[b - 1])
        invariant
            a <= b <= s@.len(),
            trim_back(f) == trim_back(s@.subrange(a as int, b as int)),
        decreases b,
    {
        assert(s@.subrange(a as int, b as int).drop_last() =~= s@.subrange(a as int, b - 1));
        b -= 1;
    }
    chars_between(s, a, b)
}

/// The text without white space at either end.
pub fn trim_text(s: &str) -> (r: String)
    ensures
        r@ == trimmed(s@),
{
    let c = chars_of(s);
    string_of(trim_chars(c.as_slice()).as_slice())
}

/// `p` stands in `s` at place `i`.
pub open spec fn occurs_at(s: Seq<char>, p: Seq<char>, i: int) -> bool {
    0 <= i && i + p.len() <= s.len() && s.subrange(i, i + p.len()) == p
}

/// `s` begins with `p`.
pub open spec fn starts(s: Seq<char>, p: Seq<char>) -> bool {
    occurs_at(s, p, 0)
}

/// `s` ends with `p`.
pub open spec fn ends(s: Seq<char>, p: Seq<char>) -> bool {
    occurs_at(s, p, s.len() - p.len())
}

/// `p` stands somewhere in `s`.
pub open spec fn holds(s: Seq<char>, p: Seq<char>) -> bool {
    exists|i: int| occurs_at(s, p, i)
}

/// The first place from `i` on at which `p` stands in `s`.
pub open spec fn find_from(s: Seq<char>, p: Seq<char>, i: int) -> Option<int>
    decreases s.len() + 1 - i,
{
    if i < 0 || i > s.len() {
        None
    } else if occurs_at(s, p, i) {
        Some(i)
    } else {
        find_from(s, p, i + 1)
    }
}

/// Whether `p` stands in `s` at place `i`.
pub fn chars_at(s: &[char], p: &[char], i: usize) -> (r: bool)
    ensures
        r == occurs_at(s@, p@, i as int),
{
    if i > s.len() || s.len() - i < p.len() {
        return false;
    }
    let mut j: usize = 0;
    while j < p.len()
        invariant
            j <= p@.len(),
            i + p@.len() <= s@.len() <= usize::MAX,
            forall|k: int| 0 <= k < j ==> s@[i + k] == p@[k],
        decreases p.len() - j,
    {
        if s[i + j] != p[j] {
            assert(s@.subrange(i as int, i + p@.len())[j as int] != p@[j as int]);
            return false;
        }
        j += 1;
    }
    assert(s@.subrange(i as int, i + p@.len()) =~= p@);
    true
}

/// The first place from `from` on at which `p` stands in `s`.
pub fn find_chars(s: &[char], p: &[char], from: usize) -> (r: Option<usize>)
    ensures
        match r {
            Some(i) => find_from(s@, p@, from as int) == Some(i as int) && occurs_at(
                s@,
                p@,
                i as int,
            ) && from <= i,
            None => find_from(s@, p@, from as int) is None,
        },
{
    let mut i: usize = from;
    while i < s.len()
        invariant
            from <= i,
            find_from(s@, p@, from as int) == find_from(s@, p@, i as int),
        decreases s@.len() - i,
    {
        if chars_at(s, p, i) {
            return Some(i);
        }
        i += 1;
    }
    if i == s.len() && chars_at(s, p, i) {
        return Some(i);
    }
    assert(find_from(s@, p@, i + 1) is None);
    None
}

/// Nothing is found exactly where the pattern stands nowhere.
pub proof fn lemma_find(s: Seq<char>, p: Seq<char>, i: int)
    requires
        0 <= i,
    ensures
        match find_from(s, p, i) {
            Some(k) => i <= k && occurs_at(s, p, k) && forall|j: int|
                i <= j < k ==> !#[trigger] occurs_at(s, p, j),
            None => forall|j: int| i <= j ==> !#[trigger] occurs_at(s, p, j),
        },
    decreases s.len() + 1 - i,
{
    if i <= s.len() && !occurs_at(s, p, i) {
        lemma_find(s, p, i + 1);
    }
}

/// Whether `s` begins with `p`.
pub fn str_starts(s: &str, p: &str) -> (r: bool)
    ensures
        r == starts(s@, p@),
{
    let (a, b) = (chars_of(s), chars_of(p));
    chars_at(a.as_slice(), b.as_slice(), 0)
}

/// Whether `s` ends with `p`.
pub fn str_ends(s: &str, p: &str) -> (r: bool)
    ensures
        r == ends(s@, p@),
{
    let (a, b) = (chars_of(s), chars_of(p));
    if b.len() > a.len() {
        return false;
    }
    chars_at(a.as_slice(), b.as_slice(), a.len() - b.len())
}

/// Whether `p` stands somewhere in `s`.
pub fn str_holds(s: &str, p: &str) -> (r: bool)
    ensures
        r == holds(s@, p@),
{
    let (a, b) = (chars_of(s), chars_of(p));
    let r = find_chars(a.as_slice(), b.as_slice(), 0);
    proof {
        lemma_find(s@, p@, 0);
    }
    r.is_some()
}

/// The pieces between the marked characters, which belong to no piece. There
/// is one piece more than there are marks; a piece may be empty.
pub open spec fn pieces(s: Seq<char>, marks: Seq<bool>) -> Seq<Seq<char>>
    decreases s.len(),
{
    if s.len() == 0 {
        seq![Seq::empty()]
    } else {
        let p = pieces(s.drop_last(), marks);
        if marks[s.len() - 1] {
            p.push(Seq::empty())
        } else {
            p.drop_last().push(p.last().push(s.last()))
        }
    }
}

/// A stretch without a mark, with a mark or an end of the text at either side, is a
/// piece; and the stretch behind the last mark is the last one.
pub proof fn lemma_piece(s: Seq<char>, marks: Seq<bool>, i: int, j: int)
    requires
        0 <= i <= j <= s.len(),
        s.len() <= marks.len(),
        i == 0 || marks[i - 1],
        j == s.len() || marks[j],
        forall|k: int| i <= k < j ==> !#[trigger] marks[k],
    ensures
        pieces(s, marks).len() > 0,
        pieces(s, marks).contains(s.subrange(i, j)),
        j == s.len() ==> pieces(s, marks).last() == s.subrange(i, j),
        j < s.len() ==> pieces(s, marks).drop_last().contains(s.subrange(i, j)),
    decreases s.len(),
{
    let all = pieces(s, marks);
    let w = s.subrange(i, j);
    if s.len() == 0 {
        assert(w =~= Seq::empty());
        assert(all[0] == w);
    } else {
        let t = s.drop_last();
        let p = pieces(t, marks);
        let n = t.len() as int;
        if j <= n {
            lemma_piece(t, marks, i, j);
            assert(t.subrange(i, j) =~= w);
            if j == n {
                assert(marks[n]);
                assert(all.drop_last() =~= p);
                assert(p[p.len() - 1] == w);
                assert(p.contains(w));
            } else {
                let k = p.drop_last().index_of(w);
                assert(p.drop_last()[k] == w);
                assert(all[k] == w);
                assert(all.drop_last()[k] == w);
            }
            let k = all.drop_last().index_of(w);
            assert(all[k] == w);
        } else if i == j {
            assert(marks[n]);
            assert(w =~= Seq::empty());
            lemma_piece_last(t, marks);
            assert(all[all.len() - 1] == w);
        } else {
            lemma_piece(t, marks, i, n);
            assert(!marks[n]);
            assert(t.subrange(i, n).push(s.last()) =~= w);
            assert(all[all.len() - 1] == w);
        }
    }
}

proof fn lemma_piece_last(s: Seq<char>, marks: Seq<bool>)
    ensures
        pieces(s, marks).len() > 0,
    decreases s.len(),
{
    if s.len() > 0 {
        lemma_piece_last(s.drop_last(), marks);
    }
}

/// Every piece stands in the text, with no mark inside it.
pub proof fn lemma_pieces_within(s: Seq<char>, marks: Seq<bool>, k: int)
    requires
        s.len() <= marks.len(),
        0 <= k < pieces(s, marks).len(),
    ensures
        exists|i: int|
            #![trigger occurs_at(s, pieces(s, marks)[k], i)]
            occurs_at(s, pieces(s, marks)[k], i) && (forall|m: int|
                i <= m < i + pieces(s, marks)[k].len() ==> !#[trigger] marks[m]) && (k
                == pieces(s, marks).len() - 1 ==> i + pieces(s, marks)[k].len() == s.len()),
    decreases s.len(),
{
    let all = pieces(s, marks);
    if s.len() == 0 {
        assert(s.subrange(0, 0) =~= all[k]);
        assert(occurs_at(s, all[k], 0));
    } else {
        let t = s.drop_last();
        let p = pieces(t, marks);
        let n = t.len() as int;
        lemma_piece_last(t, marks);
        if marks[n] && k == all.len() - 1 {
            assert(s.subrange(n + 1, n + 1) =~= all[k]);
            assert(occurs_at(s, all[k], n + 1));
        } else {
            lemma_pieces_within(t, marks, k);
            let i = choose|i: int|
                #![trigger occurs_at(t, p[k], i)]
                occurs_at(t, p[k], i) && (forall|m: int|
                    i <= m < i + p[k].len() ==> !#[trigger] marks[m]) && (k == p.len() - 1 ==> i
                    + p[k].len() == t.len());
            if !marks[n] && k == p.len() - 1 {
                assert(all[k] == p[k].push(s.last()));
                assert(s.subrange(i, i + all[k].len()) =~= all[k]);
            } else {
                assert(all[k] == p[k]);
                assert(s.subrange(i, i + all[k].len()) =~= t.subrange(i, i + p[k].len()));
            }
            assert(occurs_at(s, all[k], i));
        }
    }
}

/// The characters of each piece.
pub open spec fn char_views(s: Seq<Vec<char>>) -> Seq<Seq<char>> {
    Seq::new(s.len(), |i: int| s[i]@)
}

/// Splits at the marked characters.
pub fn split_marked(s: &[char], marks: &[bool]) -> (r: Vec<Vec<char>>)
    requires
        marks@.len() == s@.len(),
    ensures
        char_views(r@) == pieces(s@, marks@),
{
    let mut out: Vec<Vec<char>> = Vec::new();
    let mut cur: Vec<char> = Vec::new();
    let mut i: usize = 0;
    assert(char_views(out@).push(cur@) =~= seq![Seq::<char>::empty()]);
    while i < s.len()
        invariant
            i <= s@.len() == marks@.len(),
            char_views(out@).push(cur@) == pieces(s@.take(i as int), marks@),
        decreases s.len() - i,
    {
        let ghost before = char_views(out@).push(cur@);
        let ghost cur0 = cur@;
        let ghost out0 = char_views(out@);
        assert(s@.take(i + 1).drop_last() =~= s@.take(i as int));
        assert(before.drop_last() =~= out0);
        if marks[i] {
            out.push(cur);
            cur = Vec::new();
            assert(char_views(out@) =~= before);
            assert(char_views(out@).push(cur@) =~= before.push(Seq::empty()));
        } else {
            cur.push(s[i]);
        }
        i += 1;
    }
    assert(s@.take(s@.len() as int) =~= s@);
    let ghost out0 = char_views(out@);
    out.push(cur);
    assert(char_views(out@) =~= out0.push(cur@));
    out
}

/// Texts one after the other with a separator between them.
pub open spec fn joined(parts: Seq<Seq<char>>, sep: Seq<char>) -> Seq<char>
    decreases parts.len(),
{
    if parts.len() == 0 {
        Seq::empty()
    } else if parts.len() == 1 {
        parts[0]
    } else {
        joined(parts.drop_last(), sep) + sep + parts.last()
    }
}

/// Joins texts with a separator between them.
pub fn join_texts(parts: &[String], sep: &str) -> (r: String)
    ensures
        r@ == joined(Seq::new(parts@.len(), |i: int| parts@[i]@), sep@),
{
    let ghost all = Seq::new(parts@.len(), |i: int| parts@[i]@);
    let mut out = String::new();
    let mut i: usize = 0;
    while i < parts.len()
        invariant
            i <= parts@.len(),
            all == Seq::new(parts@.len(), |i: int| parts@[i]@),
            out@ == joined(all.take(i as int), sep@),
        decreases parts.len() - i,
    {
        if i > 0 {
            out.append(sep);
        }
        out.append(parts[i].as_str());
        i += 1;
        assert(all.take(i as int).drop_last() =~= all.take(i - 1));
        if i == 1 {
            assert(joined(all.take(0), sep@) + parts@[0]@ =~= parts@[0]@);
        }
    }
    assert(all.take(all.len() as int) =~= all);
    out
}

/// The character of a decimal digit.
pub open spec fn digit(d: int) -> char {
    (48 + d) as char
}

/// A number in decimal.
pub open spec fn dec_text(n: nat) -> Seq<char>
    decreases n,
{
    if n < 10 {
        seq![digit(n as int)]
    } else {
        dec_text(n / 10).push(digit(n as int % 10))
    }
}

/// A number in decimal.
pub fn u64_text(n: u64) -> (r: String)
    ensures
        r@ == dec_text(n as nat),
    decreases n,
{
    if n < 10 {
        let mut s = String::new();
        s.push((48 + n as u8) as char);
        assert(s@ =~= dec_text(n as nat));
        s
    } else {
        let mut s = u64_text(n / 10);
        s.push((48 + (n % 10) as u8) as char);
        s
    }
}

/// The value of a decimal digit.
pub open spec fn digit_value(c: char) -> Option<nat> {
    if '0' <= c && c <= '9' {
        Some((c as u32 - 48) as nat)
    } else {
        None
    }
}

/// The value of a run of decimal digits; one at least.
pub open spec fn digits_of(s: Seq<char>) -> Option<nat>
    decreases s.len(),
{
    if s.len() == 0 {
        None
    } else {
        match digit_value(s.last()) {
            None => None,
            Some(d) => if s.len() == 1 {
                Some(d)
            } else {
                match digits_of(s.drop_last()) {
                    None => None,
                    Some(v) => Some(v * 10 + d),
                }
            },
        }
    }
}

/// The unsigned number that a text stands for: an optional plus sign and
/// decimal digits, no more than 64 bits can hold.
pub open spec fn u64_of(s: Seq<char>) -> Option<u64> {
    let body = if s.len() > 0 && s[0] == '+' {
        s.skip(1)
    } else {
        s
    };
    match digits_of(body) {
        Some(v) => if v <= u64::MAX {
            Some(v as u64)
        } else {
            None
        },
        None => None,
    }
}

/// The signed number that a text stands for: an optional sign and decimal
/// digits, no more than 64 bits can hold.
pub open spec fn i64_of(s: Seq<char>) -> Option<i64> {
    if s.len() > 0 && s[0] == '-' {
        match digits_of(s.skip(1)) {
            Some(v) => if v <= 0x8000_0000_0000_0000 {
                Some((-v) as i64)
            } else {
                None
            },
            None => None,
        }
    } else {
        match u64_of(s) {
            Some(v) => if v <= i64::MAX {
                Some(v as i64)
            } else {
                None
            },
            None => None,
        }
    }
}

/// A number in decimal is made of digits, one at least, and is read back as that
/// number.
pub proof fn lemma_decimal_read(n: nat)
    ensures
        dec_text(n).len() >= 1,
        forall|i: int| 0 <= i < dec_text(n).len() ==> '0' <= #[trigger] dec_text(n)[i] <= '9',
        digits_of(dec_text(n)) == Some(n),
        n <= u64::MAX ==> u64_of(dec_text(n)) == Some(n as u64),
        n <= i64::MAX ==> i64_of(dec_text(n)) == Some(n as i64),
    decreases n,
{
    let t = dec_text(n);
    if n >= 10 {
        lemma_decimal_read(n / 10);
        assert(t.drop_last() =~= dec_text(n / 10));
        assert(t.last() == digit(n as int % 10));
        assert(digit_value(t.last()) == Some((n % 10) as nat));
        assert forall|i: int| 0 <= i < t.len() implies '0' <= #[trigger] t[i] <= '9' by {
            if i < t.len() - 1 {
                assert(t[i] == dec_text(n / 10)[i]);
            }
        }
    } else {
        assert(digit_value(t.last()) == Some(n));
    }
    assert('0' <= t[0] <= '9');
}

proof fn lemma_digits_grow(s: Seq<char>, i: int)
    requires
        0 < i <= s.len(),
    ensures
        digits_of(s) is Some ==> digits_of(s.take(i)) is Some && digits_of(s.take(i))->0
            <= digits_of(s)->0,
    decreases s.len(),
{
    if i < s.len() {
        lemma_digits_grow(s.drop_last(), i);
        assert(s.drop_last().take(i) =~= s.take(i));
    } else {
        assert(s.take(i) =~= s);
    }
}

/// Reads decimal digits from `from` on; `None` also where the value does not
/// fit in 64 bits.
pub fn read_digits(s: &[char], from: usize) -> (r: Option<u64>)
    requires
        from <= s@.len(),
    ensures
        match r {
            Some(v) => digits_of(s@.skip(from as int)) == Some(v as nat),
            None => match digits_of(s@.skip(from as int)) {
                Some(v) => v > u64::MAX,
                None => true,
            },
        },
{
    let ghost t = s@.skip(from as int);
    let mut v: u64 = 0;
    let mut i: usize = from;
    if from == s.len() {
        return None;
    }
    while i < s.len()
        invariant
            from <= i <= s@.len(),
            t == s@.skip(from as int),
            i == from ==> v == 0,
            i > from ==> digits_of(t.take(i - from)) == Some(v as nat),
        decreases s.len() - i,
    {
        let c: char = s[i];
        let ghost now = t.take(i - from + 1);
        proof {
            assert(now.last() == c);
            assert(now.drop_last() =~= t.take(i - from));
            lemma_digits_grow(t, i - from + 1);
        }
        if !('0' <= c && c <= '9') {
            return None;
        }
        let d: u64 = (c as u32 - 48) as u64;
        if v > u64::MAX / 10 || (v == u64::MAX / 10 && d > u64::MAX % 10) {
            return None;
        }
        v = v * 10 + d;
        i += 1;
    }
    assert(t.take(t.len() as int) =~= t);
    Some(v)
}

/// Reads an unsigned number.
pub fn parse_u64(s: &str) -> (r: Option<u64>)
    ensures
        r == u64_of(s@),
{
    let c = chars_of(s);
    let from: usize = if c.len() > 0 && c[0] == '+' { 1 } else { 0 };
    assert(s@.skip(0) =~= s@);
    read_digits(c.as_slice(), from)
}

/// Reads a signed number.
pub fn parse_i64(s: &str) -> (r: Option<i64>)
    ensures
        r == i64_of(s@),
{
    let c = chars_of(s);
    if c.len() > 0 && c[0] == '-' {
        match read_digits(c.as_slice(), 1) {
            Some(v) => if v < 0x8000_0000_0000_0000 {
                Some(-(v as i64))
            } else if v == 0x8000_0000_0000_0000 {
                Some(i64::MIN)
            } else {
                None
            },
            None => None,
        }
    } else {
        match parse_u64(s) {
            Some(v) => if v <= i64::MAX as u64 {
                Some(v as i64)
            } else {
                None
            },
            None => None,
        }
    }
}

/// Two texts, one after the other.
pub fn cat2(a: &str, b: &str) -> (r: String)
    ensures
        r@ == a@ + b@,
{
    let mut out = a.to_owned();
    out.append(b);
    out
}

/// Three texts, one after the other.
pub fn cat3(a: &str, b: &str, c: &str) -> (r: String)
    ensures
        r@ == a@ + b@ + c@,
{
    let mut out = a.to_owned();
    out.append(b);
    out.append(c);
    out
}

/// Four texts, one after the other.
pub fn cat4(a: &str, b: &str, c: &str, d: &str) -> (r: String)
    ensures
        r@ == a@ + b@ + c@ + d@,
{
    let mut out = a.to_owned();
    out.append(b);
    out.append(c);
    out.append(d);
    out
}

/// Five texts, one after the other.
pub fn cat5(a: &str, b: &str, c: &str, d: &str, e: &str) -> (r: String)
    ensures
        r@ == a@ + b@ + c@ + d@ + e@,
{
    let mut out = a.to_owned();
    out.append(b);
    out.append(c);
    out.append(d);
    out.append(e);
    out
}

/// Six texts, one after the other.
pub fn cat6(a: &str, b: &str, c: &str, d: &str, e: &str, f: &str) -> (r: String)
    ensures
        r@ == a@ + b@ + c@ + d@ + e@ + f@,
{
    let mut out = a.to_owned();
    out.append(b);
    out.append(c);
    out.append(d);
    out.append(e);
    out.append(f);
    out
}

/// `n` zeros.
pub open spec fn zeros(n: nat) -> Seq<char> {
    Seq::new(n, |i: int| '0')
}

/// A number in decimal, with zeros in front up to a width.
pub open spec fn padded(n: nat, width: nat) -> Seq<char> {
    let d = dec_text(n);
    if d.len() < width {
        zeros((width - d.len()) as nat) + d
    } else {
        d
    }
}

/// How many decimal digits a number has.
fn digit_count(n: u64) -> (r: usize)
    ensures
        r == dec_text(n as nat).len(),
        r <= 20,
{
    let mut k: usize = 1;
    let mut m: u64 = n;
    let ghost mut p: nat = 1;
    while m >= 10
        invariant
            dec_text(n as nat).len() == dec_text(m as nat).len() + k - 1,
            1 <= k,
            k <= 20,
            p >= 1,
            m * p <= 0xFFFF_FFFF_FFFF_FFFF,
            k >= 2 ==> p >= 10,
            p == tens((k - 1) as nat),
        decreases m,
    {
        proof {
            lemma_tens((k - 1) as nat);
            assert((m / 10) * (p * 10) <= m * p) by (nonlinear_arith)
                requires
                    m >= 10,
                    p >= 1,
            ;
            assert(p * 10 <= m * p) by (nonlinear_arith)
                requires
                    m >= 10,
                    p >= 1,
            ;
            if k == 20 {
                lemma_tens_19();
            }
            p = p * 10;
        }
        m = m / 10;
        k += 1;
    }
    k
}

spec fn tens(n: nat) -> nat
    decreases n,
{
    if n == 0 {
        1
    } else {
        10 * tens((n - 1) as nat)
    }
}

proof fn lemma_tens(n: nat)
    ensures
        tens(n + 1) == 10 * tens(n),
{
}

proof fn lemma_tens_19()
    ensures
        tens(19) == 10_000_000_000_000_000_000,
{
    reveal_with_fuel(tens, 20);
}

/// A number in decimal, with zeros in front up to a width.
pub fn padded_text(n: u64, width: usize) -> (r: String)
    ensures
        r@ == padded(n as nat, width as nat),
{
    let len: usize = digit_count(n);
    let mut out = String::new();
    let mut i: usize = len;
    assert(out@ =~= zeros(0));
    while i < width
        invariant
            len <= i,
            i <= width || i == len,
            out@ == zeros((i - len) as nat),
        decreases width - i,
    {
        out.push('0');
        i += 1;
        assert(out@ =~= zeros((i - len) as nat));
    }
    out.append(u64_text(n).as_str());
    assert(len >= width ==> zeros(0) + dec_text(n as nat) =~= dec_text(n as nat));
    out
}

} // verus!
