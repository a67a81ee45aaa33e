//! Facet globs with negation.
//!
//! A scope is a list of words: include globs, and exclude globs behind a `!`.
//! A facet is allowed when some include glob and no exclude glob matches it.
//! `**` matches any characters, `*` any characters but `/`, `?` one character
//! but `/`; every other character matches itself.

use vstd::prelude::*;
use crate::cbor::text_views;
use crate::text::{
    chars_of, is_space, join_texts, joined, pieces, space, split_marked, str_eq, string_of,
    char_views,
};

verus! {

/// The characters hold no slash.
pub open spec fn no_slash(s: Seq<char>) -> bool {
    forall|i: int| 0 <= i < s.len() ==> s[i] != '/'
}

/// The pattern matches the text.
pub open spec fn glob_matches(p: Seq<char>, t: Seq<char>) -> bool
    decreases p.len(),
{
    if p.len() == 0 {
        t.len() == 0
    } else if p[0] == '*' && p.len() > 1 && p[1] == '*' {
        exists|k: int| 0 <= k <= t.len() && glob_matches(p.skip(2), #[trigger] t.skip(k))
    } else if p[0] == '*' {
        exists|k: int|
            0 <= k <= t.len() && no_slash(t.take(k)) && glob_matches(
                p.skip(1),
                #[trigger] t.skip(k),
            )
    } else if p[0] == '?' {
        t.len() > 0 && t[0] != '/' && glob_matches(p.skip(1), t.skip(1))
    } else {
        t.len() > 0 && t[0] == p[0] && glob_matches(p.skip(1), t.skip(1))
    }
}

fn match_from(p: &[char], pi: usize, t: &[char], ti: usize) -> (r: bool)
    requires
        pi <= p@.len(),
        ti <= t@.len(),
    ensures
        r == glob_matches(p@.skip(pi as int), t@.skip(ti as int)),
    decreases p@.len() - pi,
{
    let ghost ps = p@.skip(pi as int);
    let ghost ts = t@.skip(ti as int);
    if pi >= p.len() {
        return ti == t.len();
    }
    let c: char = p[pi];
    assert(ps[0] == c);
    if c == '*' {
        if p.len() - pi > 1 && p[pi + 1] == '*' {
            let next: usize = pi + 2;
            assert(ps.skip(2) =~= p@.skip(next as int));
            let mut k: usize = ti;
            while k <= t.len()
                invariant
                    ti <= k <= t@.len() + 1,
                    next <= p@.len(),
                    next == pi + 2,
                    ts == t@.skip(ti as int),
                    ps == p@.skip(pi as int),
                    ps.skip(2) == p@.skip(next as int),
                    ps.len() > 1 && ps[0] == '*' && ps[1] == '*',
                    t@.len() < usize::MAX || k <= t@.len(),
                    forall|j: int|
                        0 <= j < k - ti ==> !glob_matches(ps.skip(2), #[trigger] ts.skip(j)),
                decreases t@.len() + 1 - k,
            {
                assert(ts.skip(k - ti) =~= t@.skip(k as int));
                if match_from(p, next, t, k) {
                    return true;
                }
                if k == t.len() {
                    return false;
                }
                k += 1;
            }
            return false;
        }
        let next: usize = pi + 1;
        assert(ps.skip(1) =~= p@.skip(next as int));
        let mut k: usize = ti;
        loop
            invariant
                ti <= k <= t@.len(),
                next <= p@.len(),
                next == pi + 1,
                ts == t@.skip(ti as int),
                ps == p@.skip(pi as int),
                ps.skip(1) == p@.skip(next as int),
                ps.len() > 0 && ps[0] == '*' && !(ps.len() > 1 && ps[1] == '*'),
                no_slash(ts.take(k - ti)),
                forall|j: int|
                    0 <= j < k - ti ==> !glob_matches(ps.skip(1), #[trigger] ts.skip(j)),
            decreases t@.len() - k,
        {
            assert(ts.skip(k - ti) =~= t@.skip(k as int));
            if match_from(p, next, t, k) {
                return true;
            }
            if k >= t.len() {
                return false;
            }
            if t[k] == '/' {
                assert forall|j: int| k - ti < j <= ts.len() implies !no_slash(#[trigger] ts.take(j)) by {
                    assert(ts.take(j)[k - ti] == '/');
                }
                assert(!glob_matches(ps, ts)) by {
                    if glob_matches(ps, ts) {
                        let j = choose|j: int|
                            0 <= j <= ts.len() && no_slash(ts.take(j)) && glob_matches(
                                ps.skip(1),
                                #[trigger] ts.skip(j),
                            );
                        assert(j <= k - ti);
                    }
                }
                return false;
            }
            k += 1;
            assert(no_slash(ts.take(k - ti)));
        }
    }
    if ti >= t.len() {
        return false;
    }
    assert(ps.skip(1) =~= p@.skip(pi + 1));
    assert(ts.skip(1) =~= t@.skip(ti + 1));
    if c == '?' {
        if t[ti] == '/' {
            return false;
        }
    } else if t[ti] != c {
        return false;
    }
    match_from(p, pi + 1, t, ti + 1)
}

/// Whether the pattern matches the text.
pub fn glob_match(pattern: &str, text: &str) -> (r: bool)
    ensures
        r == glob_matches(pattern@, text@),
{
    let p = chars_of(pattern);
    let t = chars_of(text);
    assert(pattern@.skip(0) =~= pattern@);
    assert(text@.skip(0) =~= text@);
    match_from(p.as_slice(), 0, t.as_slice(), 0)
}

/// Which characters are white space.
pub open spec fn space_marks(s: Seq<char>) -> Seq<bool> {
    Seq::new(s.len(), |i: int| is_space(s[i]))
}

/// The include globs among words: those without a `!`, each once, in order.
pub open spec fn includes_of(words: Seq<Seq<char>>) -> Seq<Seq<char>>
    decreases words.len(),
{
    if words.len() == 0 {
        Seq::empty()
    } else {
        let before = includes_of(words.drop_last());
        let w = words.last();
        if w.len() > 0 && w[0] != '!' && !before.contains(w) {
            before.push(w)
        } else {
            before
        }
    }
}

/// The exclude globs among words: what stands behind a `!`, each once.
pub open spec fn excludes_of(words: Seq<Seq<char>>) -> Seq<Seq<char>>
    decreases words.len(),
{
    if words.len() == 0 {
        Seq::empty()
    } else {
        let before = excludes_of(words.drop_last());
        let w = words.last();
        if w.len() > 1 && w[0] == '!' && !before.contains(w.skip(1)) {
            before.push(w.skip(1))
        } else {
            before
        }
    }
}

/// The words of a scope text.
pub open spec fn scope_words(s: Seq<char>) -> Seq<Seq<char>> {
    pieces(s, space_marks(s))
}

/// The include globs of a scope text; `**` where it names none.
pub open spec fn scope_includes(s: Seq<char>) -> Seq<Seq<char>> {
    let i = includes_of(scope_words(s));
    if i.len() == 0 {
        seq!["**"@]
    } else {
        i
    }
}

/// Some glob of the list matches.
pub open spec fn any_matches(globs: Seq<Seq<char>>, facet: Seq<char>) -> bool {
    exists|i: int| 0 <= i < globs.len() && glob_matches(#[trigger] globs[i], facet)
}

/// What a token may see: include globs and exclude globs.
#[derive(Debug)]
pub struct FacetScope {
    pub includes: Vec<String>,
    pub excludes: Vec<String>,
}

/// Whether a list holds a text.
pub fn list_holds(list: &[String], s: &str) -> (r: bool)
    ensures
        r == text_views(list@).contains(s@),
{
    let mut i: usize = 0;
    while i < list.len()
        invariant
            i <= list@.len(),
            forall|j: int| 0 <= j < i ==> #[trigger] text_views(list@)[j] != s@,
        decreases list.len() - i,
    {
        if str_eq(list[i].as_str(), s) {
            assert(text_views(list@)[i as int] == s@);
            return true;
        }
        i += 1;
    }
    false
}

/// Whether some glob of the list matches.
fn any_match(globs: &[String], facet: &str) -> (r: bool)
    ensures
        r == any_matches(text_views(globs@), facet@),
{
    let mut i: usize = 0;
    while i < globs.len()
        invariant
            i <= globs@.len(),
            forall|j: int| 0 <= j < i ==> !glob_matches(#[trigger] text_views(globs@)[j], facet@),
        decreases globs.len() - i,
    {
        if glob_match(globs[i].as_str(), facet) {
            assert(glob_matches(text_views(globs@)[i as int], facet@));
            return true;
        }
        assert(!glob_matches(text_views(globs@)[i as int], facet@));
        i += 1;
    }
    false
}

/// The pieces of a text between its white space.
pub fn split_space(s: &str) -> (r: Vec<Vec<char>>)
    ensures
        char_views(r@) == scope_words(s@),
{
    let c = chars_of(s);
    let mut marks: Vec<bool> = Vec::new();
    let mut i: usize = 0;
    while i < c.len()
        invariant
            i <= c@.len(),
            c@ == s@,
            marks@ == space_marks(s@).take(i as int),
        decreases c.len() - i,
    {
        marks.push(space(c[i]));
        i += 1;
        assert(marks@ =~= space_marks(s@).take(i as int));
    }
    assert(marks@ =~= space_marks(s@));
    split_marked(c.as_slice(), marks.as_slice())
}

impl FacetScope {
    /// Reads a scope text. A blank scope allows everything.
    pub fn parse(s: &str) -> (r: FacetScope)
        ensures
            text_views(r.includes@) == scope_includes(s@),
            text_views(r.excludes@) == excludes_of(scope_words(s@)),
    {
        let words = split_space(s);
        let ghost w = scope_words(s@);
        let mut includes: Vec<String> = Vec::new();
        let mut excludes: Vec<String> = Vec::new();
        let mut i: usize = 0;
        assert(text_views(includes@) =~= includes_of(w.take(0)));
        assert(text_views(excludes@) =~= excludes_of(w.take(0)));
        while i < words.len()
            invariant
                i <= words@.len(),
                w == char_views(words@),
                text_views(includes@) == includes_of(w.take(i as int)),
                text_views(excludes@) == excludes_of(w.take(i as int)),
            decreases words.len() - i,
        {
            assert(w.take(i + 1).drop_last() =~= w.take(i as int));
            assert(w.take(i + 1).last() == words@[i as int]@);
            let tok = &words[i];
            if tok.len() > 0 {
                if tok[0] == '!' {
                    let ex = string_of(
                        crate::text::chars_between(tok.as_slice(), 1, tok.len()).as_slice(),
                    );
                    assert(ex@ =~= tok@.skip(1));
                    if tok.len() > 1 && !list_holds(excludes.as_slice(), ex.as_str()) {
                        let ghost before = text_views(excludes@);
                        excludes.push(ex);
                        assert(text_views(excludes@) =~= before.push(tok@.skip(1)));
                    }
                } else {
                    let t = string_of(tok.as_slice());
                    if !list_holds(includes.as_slice(), t.as_str()) {
                        let ghost before = text_views(includes@);
                        includes.push(t);
                        assert(text_views(includes@) =~= before.push(tok@));
                    }
                }
            }
            i += 1;
        }
        assert(w.take(w.len() as int) =~= w);
        if includes.len() == 0 {
            includes.push("**".to_owned());
            assert(text_views(includes@) =~= seq!["**"@]);
        }
        FacetScope { includes, excludes }
    }

    /// The scope as text: its include globs, then its exclude globs.
    pub fn canonical(&self) -> (r: String)
        ensures
            r@ == scope_text(text_views(self.includes@), text_views(self.excludes@)),
    {
        let mut parts: Vec<String> = Vec::new();
        let mut i: usize = 0;
        while i < self.includes.len()
            invariant
                i <= self.includes@.len(),
                text_views(parts@) == text_views(self.includes@).take(i as int),
            decreases self.includes.len() - i,
        {
            let ghost before = text_views(parts@);
            parts.push(self.includes[i].clone());
            assert(text_views(parts@) =~= before.push(self.includes@[i as int]@));
            i += 1;
            assert(text_views(parts@) =~= text_views(self.includes@).take(i as int));
        }
        let ghost n = self.includes@.len() as int;
        let ghost w = scope_text_words(
            text_views(self.includes@),
            text_views(self.excludes@),
        );
        assert(text_views(parts@) =~= w.take(n));
        i = 0;
        while i < self.excludes.len()
            invariant
                i <= self.excludes@.len(),
                n == self.includes@.len(),
                w == scope_text_words(text_views(self.includes@), text_views(self.excludes@)),
                text_views(parts@) == w.take(n + i),
            decreases self.excludes.len() - i,
        {
            let mut e = String::new();
            e.push('!');
            e.append(self.excludes[i].as_str());
            assert(e@ =~= seq!['!'] + self.excludes@[i as int]@);
            let ghost before = text_views(parts@);
            parts.push(e);
            assert(text_views(parts@) =~= before.push(w[n + i]));
            i += 1;
            assert(text_views(parts@) =~= w.take(n + i));
        }
        assert(w.take(w.len() as int) =~= w);
        assert(text_views(parts@) =~= w);
        proof {
            reveal_strlit(" ");
            assert(" "@ =~= seq![' ']);
        }
        join_texts(parts.as_slice(), " ")
    }

    /// Whether the facet is included and not excluded.
    pub fn allows(&self, facet: &str) -> (r: bool)
        ensures
            r == (any_matches(text_views(self.includes@), facet@) && !any_matches(
                text_views(self.excludes@),
                facet@,
            )),
    {
        any_match(self.includes.as_slice(), facet) && !any_match(self.excludes.as_slice(), facet)
    }

    /// Whether an exclude glob blocks the facet.
    pub fn excluded(&self, facet: &str) -> (r: bool)
        ensures
            r == any_matches(text_views(self.excludes@), facet@),
    {
        any_match(self.excludes.as_slice(), facet)
    }
}

/// No glob stands twice among the include globs or among the exclude globs of
/// a scope text.
pub proof fn lemma_scope_no_duplicates(words: Seq<Seq<char>>)
    ensures
        includes_of(words).no_duplicates(),
        excludes_of(words).no_duplicates(),
    decreases words.len(),
{
    if words.len() > 0 {
        lemma_scope_no_duplicates(words.drop_last());
    }
}

/// A pattern of two stars matches every text, so a blank scope allows every
/// facet.
pub proof fn lemma_double_star(t: Seq<char>)
    ensures
        glob_matches("**"@, t),
        any_matches(seq!["**"@], t),
{
    reveal_strlit("**");
    let p = "**"@;
    assert(p.len() == 2 && p[0] == '*' && p[1] == '*');
    assert(p.skip(2).len() == 0);
    assert(t.skip(t.len() as int).len() == 0);
    assert(glob_matches(p.skip(2), t.skip(t.len() as int)));
    assert(glob_matches(seq!["**"@][0], t));
}

/// The text has no wildcards.
pub open spec fn plain(s: Seq<char>) -> bool {
    forall|i: int| 0 <= i < s.len() ==> s[i] != '*' && s[i] != '?'
}

proof fn lemma_literal(f: Seq<char>, p: Seq<char>, t: Seq<char>)
    requires
        plain(f),
        glob_matches(p, t),
    ensures
        glob_matches(f + p, f + t),
    decreases f.len(),
{
    if f.len() == 0 {
        assert(f + p =~= p);
        assert(f + t =~= t);
    } else {
        lemma_literal(f.skip(1), p, t);
        assert((f + p).skip(1) =~= f.skip(1) + p);
        assert((f + t).skip(1) =~= f.skip(1) + t);
        assert((f + p)[0] == f[0]);
    }
}

/// A pattern without wildcards matches itself and nothing else.
pub proof fn lemma_plain_pattern(p: Seq<char>, t: Seq<char>)
    requires
        forall|i: int| 0 <= i < p.len() ==> (#[trigger] p[i]) != '*' && p[i] != '?',
    ensures
        glob_matches(p, t) <==> p == t,
    decreases p.len(),
{
    if p.len() > 0 {
        let q = p.skip(1);
        assert(p[0] != '*' && p[0] != '?');
        assert forall|i: int| 0 <= i < q.len() implies (#[trigger] q[i]) != '*' && q[i] != '?' by {
            assert(q[i] == p[i + 1]);
        }
        lemma_plain_pattern(q, t.skip(1));
        if t.len() > 0 && t[0] == p[0] && q == t.skip(1) {
            assert(p =~= t) by {
                assert forall|i: int| 0 <= i < p.len() implies p[i] == t[i] by {
                    if i > 0 {
                        assert(q[i - 1] == t.skip(1)[i - 1]);
                    }
                }
            }
        }
    } else {
        assert(t.len() == 0 ==> p =~= t);
    }
}

/// A star at the end of a pattern without other wildcards matches what goes on without a
/// slash; two stars match whatever goes on.
pub proof fn lemma_star_behind(p: Seq<char>, t: Seq<char>)
    requires
        forall|i: int| 0 <= i < p.len() ==> (#[trigger] p[i]) != '*' && p[i] != '?',
    ensures
        glob_matches(p + seq!['*'], t) <==> t.len() >= p.len() && t.take(p.len() as int) == p
            && no_slash(t.skip(p.len() as int)),
        glob_matches(p + seq!['*', '*'], t) <==> t.len() >= p.len() && t.take(p.len() as int) == p,
    decreases p.len(),
{
    let (one, two) = (p + seq!['*'], p + seq!['*', '*']);
    if p.len() == 0 {
        assert(one[0] == '*' && one.len() == 1);
        assert(two[0] == '*' && two[1] == '*' && two.len() == 2);
        assert(one.skip(1).len() == 0 && two.skip(2).len() == 0);
        assert(t.skip(0) =~= t);
        assert(t.take(0) =~= p);
        let n = t.len() as int;
        assert(t.skip(n).len() == 0);
        assert(t.take(n) =~= t);
        assert(glob_matches(two.skip(2), t.skip(n)));
        if no_slash(t) {
            assert(no_slash(t.take(n)) && glob_matches(one.skip(1), t.skip(n)));
        }
        if glob_matches(one, t) {
            let k = choose|k: int|
                0 <= k <= t.len() && no_slash(t.take(k)) && glob_matches(
                    one.skip(1),
                    #[trigger] t.skip(k),
                );
            assert(t.skip(k).len() == 0);
            assert(k == n);
        }
    } else {
        let q = p.skip(1);
        assert(p[0] != '*' && p[0] != '?');
        assert(one[0] == p[0] && two[0] == p[0]);
        assert forall|i: int| 0 <= i < q.len() implies (#[trigger] q[i]) != '*' && q[i] != '?' by {
            assert(q[i] == p[i + 1]);
        }
        assert(one.skip(1) =~= q + seq!['*']);
        assert(two.skip(1) =~= q + seq!['*', '*']);
        let n = p.len() as int;
        if t.len() > 0 {
            let r = t.skip(1);
            lemma_star_behind(q, r);
            if t.len() >= n {
                assert(r.skip(n - 1) =~= t.skip(n));
                assert(r.take(n - 1) =~= t.take(n).skip(1));
                if t[0] == p[0] && r.take(n - 1) == q {
                    assert(t.take(n) =~= p) by {
                        assert forall|i: int| 0 <= i < n implies t.take(n)[i] == p[i] by {
                            if i > 0 {
                                assert(q[i - 1] == r.take(n - 1)[i - 1]);
                            }
                        }
                    }
                }
                if t.take(n) == p {
                    assert(t.take(n)[0] == t[0]);
                    assert(p.skip(1) =~= r.take(n - 1));
                }
            }
        }
    }
}

/// What is excluded between two double stars is excluded wherever it stands,
/// whatever else the scope says.
pub proof fn lemma_excluded_anywhere(
    excludes: Seq<Seq<char>>,
    i: int,
    before: Seq<char>,
    part: Seq<char>,
    after: Seq<char>,
)
    requires
        0 <= i < excludes.len(),
        plain(part),
        excludes[i] == "**"@ + part + "**"@,
    ensures
        any_matches(excludes, before + part + after),
{
    let p = excludes[i];
    let t = before + part + after;
    reveal_strlit("**");
    assert("**"@.len() == 2 && "**"@[0] == '*' && "**"@[1] == '*');
    assert(p.len() > 1 && p[0] == '*' && p[1] == '*');
    lemma_double_star(after);
    lemma_literal(part, "**"@, after);
    assert(p.skip(2) =~= part + "**"@);
    assert(t.skip(before.len() as int) =~= part + after);
    assert(glob_matches(p.skip(2), t.skip(before.len() as int)));
    assert(glob_matches(p, t));
}

/// The words of a scope as it is written out canonically.
pub open spec fn scope_text_words(includes: Seq<Seq<char>>, excludes: Seq<Seq<char>>) -> Seq<
    Seq<char>,
> {
    includes + Seq::new(excludes.len(), |i: int| seq!['!'] + excludes[i])
}

/// The canonical text of a scope.
pub open spec fn scope_text(includes: Seq<Seq<char>>, excludes: Seq<Seq<char>>) -> Seq<char> {
    joined(scope_text_words(includes, excludes), seq![' '])
}

spec fn solid(w: Seq<char>) -> bool {
    forall|i: int| 0 <= i < w.len() ==> !is_space(w[i])
}

proof fn lemma_pieces_solid(s: Seq<char>)
    ensures
        scope_words(s).len() > 0,
        forall|i: int| 0 <= i < scope_words(s).len() ==> solid(#[trigger] scope_words(s)[i]),
    decreases s.len(),
{
    if s.len() > 0 {
        let d = s.drop_last();
        lemma_pieces_solid(d);
        lemma_marks_prefix(d, space_marks(d), space_marks(s));
        let p = scope_words(d);
        assert(solid(p[p.len() - 1]));
    }
}

proof fn lemma_marks_prefix(s: Seq<char>, a: Seq<bool>, b: Seq<bool>)
    requires
        forall|i: int| 0 <= i < s.len() ==> a[i] == b[i],
    ensures
        pieces(s, a) == pieces(s, b),
    decreases s.len(),
{
    if s.len() > 0 {
        lemma_marks_prefix(s.drop_last(), a, b);
    }
}

proof fn lemma_pieces_append(a: Seq<char>, w: Seq<char>)
    requires
        solid(w),
    ensures
        scope_words(a + seq![' '] + w) == scope_words(a).push(w),
        scope_words(w) == seq![w],
    decreases w.len(),
{
    let s = a + seq![' '] + w;
    if w.len() == 0 {
        assert(s.drop_last() =~= a);
        assert(s.last() == ' ');
        assert(is_space(' '));
        lemma_marks_prefix(a, space_marks(a), space_marks(s));
        assert(w =~= Seq::<char>::empty());
        assert(scope_words(s) =~= scope_words(a).push(w));
        assert(scope_words(w) =~= seq![w]);
    } else {
        let v = w.drop_last();
        lemma_pieces_append(a, v);
        assert(s.drop_last() =~= a + seq![' '] + v);
        lemma_marks_prefix(s.drop_last(), space_marks(s.drop_last()), space_marks(s));
        lemma_marks_prefix(v, space_marks(v), space_marks(w));
        assert(!is_space(w[w.len() - 1]));
        assert(space_marks(s)[s.len() - 1] == is_space(s.last()));
        assert(v.push(w.last()) =~= w);
        assert(scope_words(a).push(v).drop_last() =~= scope_words(a));
        assert(seq![v].drop_last().push(w) =~= seq![w]);
    }
}

proof fn lemma_pieces_joined(ws: Seq<Seq<char>>)
    requires
        ws.len() > 0,
        forall|i: int| 0 <= i < ws.len() ==> solid(#[trigger] ws[i]),
    ensures
        scope_words(joined(ws, seq![' '])) == ws,
    decreases ws.len(),
{
    assert(solid(ws[ws.len() - 1]));
    if ws.len() == 1 {
        lemma_pieces_append(Seq::empty(), ws[0]);
        assert(seq![ws[0]] =~= ws);
    } else {
        let d = ws.drop_last();
        assert forall|i: int| 0 <= i < d.len() implies solid(#[trigger] d[i]) by {
            assert(d[i] == ws[i]);
        }
        lemma_pieces_joined(d);
        lemma_pieces_append(joined(d, seq![' ']), ws.last());
        assert(d.push(ws.last()) =~= ws);
    }
}

proof fn lemma_split_lists(words: Seq<Seq<char>>)
    requires
        forall|i: int| 0 <= i < words.len() ==> solid(#[trigger] words[i]),
    ensures
        forall|i: int|
            0 <= i < includes_of(words).len() ==> {
                let w = #[trigger] includes_of(words)[i];
                w.len() > 0 && w[0] != '!' && solid(w)
            },
        forall|i: int|
            0 <= i < excludes_of(words).len() ==> {
                let w = #[trigger] excludes_of(words)[i];
                w.len() > 0 && solid(w)
            },
    decreases words.len(),
{
    if words.len() > 0 {
        let d = words.drop_last();
        assert forall|i: int| 0 <= i < d.len() implies solid(#[trigger] d[i]) by {
            assert(d[i] == words[i]);
        }
        lemma_split_lists(d);
        let last = words[words.len() - 1];
        assert(solid(last));
        assert forall|i: int| 0 <= i < includes_of(words).len() implies ({
            let w = #[trigger] includes_of(words)[i];
            w.len() > 0 && w[0] != '!' && solid(w)
        }) by {
            if i < includes_of(d).len() {
                assert(includes_of(words)[i] == includes_of(d)[i]);
            }
        }
        assert forall|i: int| 0 <= i < excludes_of(words).len() implies ({
            let w = #[trigger] excludes_of(words)[i];
            w.len() > 0 && solid(w)
        }) by {
            if i < excludes_of(d).len() {
                assert(excludes_of(words)[i] == excludes_of(d)[i]);
            } else {
                assert(excludes_of(words)[i] == last.skip(1));
            }
        }
    }
}

proof fn lemma_words_back(inc: Seq<Seq<char>>, exc: Seq<Seq<char>>, n: int)
    requires
        inc.no_duplicates(),
        exc.no_duplicates(),
        forall|i: int| 0 <= i < inc.len() ==> (#[trigger] inc[i]).len() > 0 && inc[i][0] != '!',
        forall|i: int| 0 <= i < exc.len() ==> (#[trigger] exc[i]).len() > 0,
        0 <= n <= inc.len() + exc.len(),
    ensures
        includes_of(scope_text_words(inc, exc).take(n)) == inc.take(
            if n < inc.len() { n } else { inc.len() as int },
        ),
        excludes_of(scope_text_words(inc, exc).take(n)) == exc.take(
            if n < inc.len() { 0 } else { n - inc.len() },
        ),
    decreases n,
{
    let ws = scope_text_words(inc, exc);
    let t = ws.take(n);
    if n > 0 {
        lemma_words_back(inc, exc, n - 1);
        assert(t.drop_last() =~= ws.take(n - 1));
        let w = t.last();
        if n <= inc.len() {
            assert(w == inc[n - 1]);
            assert(inc.take(n) =~= inc.take(n - 1).push(w));
            assert(!inc.take(n - 1).contains(w));
            assert(exc.take(0) =~= exc.take(if n - 1 < inc.len() { 0 } else { n - 1 - inc.len() }));
        } else {
            let k = n - inc.len();
            assert(w == seq!['!'] + exc[k - 1]);
            assert(w.skip(1) =~= exc[k - 1]);
            assert(w.len() > 1);
            assert(exc.take(k) =~= exc.take(k - 1).push(exc[k - 1]));
            assert(!exc.take(k - 1).contains(exc[k - 1]));
        }
    } else {
        assert(includes_of(t) =~= inc.take(0));
        assert(excludes_of(t) =~= exc.take(0));
    }
}

/// Writing a parsed scope out canonically and reading it again gives the same
/// globs in the same order.
pub proof fn lemma_canonical_round_trip(s: Seq<char>)
    ensures
        ({
            let inc = scope_includes(s);
            let exc = excludes_of(scope_words(s));
            &&& scope_includes(scope_text(inc, exc)) == inc
            &&& excludes_of(scope_words(scope_text(inc, exc))) == exc
        }),
{
    let words = scope_words(s);
    let inc = scope_includes(s);
    let exc = excludes_of(words);
    lemma_pieces_solid(s);
    lemma_split_lists(words);
    lemma_scope_no_duplicates(words);
    reveal_strlit("**");
    assert("**"@.len() == 2 && "**"@[0] == '*' && "**"@[1] == '*');
    assert(solid("**"@));
    assert(inc.no_duplicates());
    assert(forall|i: int| 0 <= i < inc.len() ==> (#[trigger] inc[i]).len() > 0 && inc[i][0] != '!' && solid(inc[i]));
    let ws = scope_text_words(inc, exc);
    assert forall|i: int| 0 <= i < ws.len() implies solid(#[trigger] ws[i]) by {
        if i >= inc.len() {
            let e = exc[i - inc.len()];
            assert(solid(e));
            assert(ws[i] == seq!['!'] + e);
            assert(!is_space('!'));
        } else {
            assert(ws[i] == inc[i]);
        }
    }
    lemma_pieces_joined(ws);
    lemma_words_back(inc, exc, ws.len() as int);
    assert(ws.take(ws.len() as int) =~= ws);
    assert(inc.take(inc.len() as int) =~= inc);
    assert(exc.take(exc.len() as int) =~= exc);
}

} // verus!
