//! Lists of scored ids, the best first: by score from high to low, and among
//! equal scores by id from low to high.

use vstd::prelude::*;

verus! {

/// A score with what has it.
pub type Scored = (u64, u32);

/// `a` comes before `b`.
pub open spec fn better(a: Scored, b: Scored) -> bool {
    a.0 > b.0 || (a.0 == b.0 && a.1 < b.1)
}

/// The best come first, and nothing stands twice.
pub open spec fn best_first(s: Seq<Scored>) -> bool {
    forall|i: int, j: int| 0 <= i < j < s.len() ==> better(#[trigger] s[i], #[trigger] s[j])
}

/// The place of `x`, from `i` on: behind all that are better.
pub open spec fn rank_of(s: Seq<Scored>, x: Scored, i: int) -> int
    decreases s.len() - i,
{
    if i < 0 || i >= s.len() || !better(s[i], x) {
        i
    } else {
        rank_of(s, x, i + 1)
    }
}

/// The list with `x` at its place.
pub open spec fn placed(s: Seq<Scored>, x: Scored) -> Seq<Scored> {
    s.insert(rank_of(s, x, 0), x)
}

/// The list in order.
pub open spec fn ranked(s: Seq<Scored>) -> Seq<Scored>
    decreases s.len(),
{
    if s.len() == 0 {
        s
    } else {
        placed(ranked(s.drop_last()), s.last())
    }
}

/// The best `k`, the best first.
pub open spec fn top_of(s: Seq<Scored>, k: nat) -> Seq<Scored> {
    if s.len() <= k {
        s
    } else {
        s.take(k as int)
    }
}

pub(crate) proof fn lemma_rank(s: Seq<Scored>, x: Scored, i: int)
    requires
        0 <= i <= s.len(),
        forall|j: int| 0 <= j < i ==> better(#[trigger] s[j], x),
    ensures
        i <= rank_of(s, x, i) <= s.len(),
        forall|j: int| 0 <= j < rank_of(s, x, i) ==> better(#[trigger] s[j], x),
        rank_of(s, x, i) < s.len() ==> !better(s[rank_of(s, x, i)], x),
    decreases s.len() - i,
{
    if i < s.len() && better(s[i], x) {
        lemma_rank(s, x, i + 1);
    }
}

/// Placing keeps the order.
pub proof fn lemma_placed(s: Seq<Scored>, x: Scored)
    requires
        best_first(s),
        !s.contains(x),
    ensures
        best_first(placed(s, x)),
{
    let p = rank_of(s, x, 0);
    let t = placed(s, x);
    lemma_rank(s, x, 0);
    assert forall|j: int| p <= j < s.len() implies better(x, #[trigger] s[j]) by {
        assert(s[p] != x);
        if j > p {
            assert(better(s[p], s[j]));
        }
    }
    assert forall|i: int, j: int| 0 <= i < j < t.len() implies better(
        #[trigger] t[i],
        #[trigger] t[j],
    ) by {
        let a = if i < p {
            i
        } else {
            i - 1
        };
        let b = if j < p {
            j
        } else {
            j - 1
        };
        if i != p && j != p {
            assert(better(s[a], s[b]));
        }
    }
}

/// Placing adds one thing and loses none.
pub proof fn lemma_placed_holds(s: Seq<Scored>, x: Scored, y: Scored)
    ensures
        placed(s, x).len() == s.len() + 1,
        placed(s, x).contains(y) <==> (y == x || s.contains(y)),
{
    let p = rank_of(s, x, 0);
    let t = placed(s, x);
    lemma_rank(s, x, 0);
    assert(t[p] == x);
    if s.contains(y) {
        let i = choose|i: int| 0 <= i < s.len() && s[i] == y;
        if i < p {
            assert(t[i] == y);
        } else {
            assert(t[i + 1] == y);
        }
    }
    if t.contains(y) && y != x {
        let i = choose|i: int| 0 <= i < t.len() && t[i] == y;
        if i < p {
            assert(s[i] == y);
        } else {
            assert(s[i - 1] == y);
        }
    }
}

/// Putting in order loses nothing, and puts things in order where none stands
/// twice.
pub proof fn lemma_ranked(s: Seq<Scored>, y: Scored)
    ensures
        ranked(s).len() == s.len(),
        ranked(s).contains(y) <==> s.contains(y),
        s.no_duplicates() ==> best_first(ranked(s)),
    decreases s.len(),
{
    if s.len() > 0 {
        let t = s.drop_last();
        lemma_ranked(t, y);
        lemma_ranked(t, s.last());
        lemma_placed_holds(ranked(t), s.last(), y);
        if s.contains(y) && y != s.last() {
            let i = choose|i: int| 0 <= i < s.len() && s[i] == y;
            assert(t[i] == y);
        }
        if t.contains(y) {
            let i = choose|i: int| 0 <= i < t.len() && t[i] == y;
            assert(s[i] == y);
        }
        assert(s[s.len() - 1] == s.last());
        if s.no_duplicates() {
            assert(t.no_duplicates());
            if t.contains(s.last()) {
                let i = choose|i: int| 0 <= i < t.len() && t[i] == s.last();
                assert(s[i] == s[s.len() - 1]);
            }
            lemma_placed(ranked(t), s.last());
        }
    }
}

/// Puts `x` at its place.
pub fn place(s: &mut Vec<Scored>, x: Scored)
    ensures
        final(s)@ == placed(old(s)@, x),
{
    let mut i: usize = 0;
    while i < s.len() && (s[i].0 > x.0 || (s[i].0 == x.0 && s[i].1 < x.1))
        invariant
            i <= s@.len(),
            s@ == old(s)@,
            rank_of(s@, x, 0) == rank_of(s@, x, i as int),
        decreases s.len() - i,
    {
        i += 1;
    }
    s.insert(i, x);
}

/// Puts a list in order.
pub fn rank(s: &Vec<Scored>) -> (r: Vec<Scored>)
    ensures
        r@ == ranked(s@),
{
    let mut out: Vec<Scored> = Vec::new();
    let mut i: usize = 0;
    assert(out@ =~= ranked(s@.take(0)));
    while i < s.len()
        invariant
            i <= s@.len(),
            out@ == ranked(s@.take(i as int)),
        decreases s.len() - i,
    {
        place(&mut out, s[i]);
        assert(s@.take(i + 1).drop_last() =~= s@.take(i as int));
        i += 1;
    }
    assert(s@.take(s@.len() as int) =~= s@);
    out
}

/// The best `k` of a list, the best first.
pub fn best(s: &Vec<Scored>, k: usize) -> (r: Vec<Scored>)
    ensures
        r@ == top_of(ranked(s@), k as nat),
{
    let mut out = rank(s);
    if out.len() > k {
        out.truncate(k);
    }
    out
}

} // verus!
