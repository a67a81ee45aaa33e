//! Texts in ascending order.

use vstd::prelude::*;
use vstd::relations::{sorted_by, total_ordering};
use vstd::seq_lib::{lemma_sorted_unique, to_multiset_insert};
use crate::cbor::text_views;
use crate::text::{
    lemma_text_irreflexive, lemma_text_total, lemma_text_transitive, str_before, text_lt,
};

verus! {

/// The order of texts.
pub open spec fn text_le() -> spec_fn(Seq<char>, Seq<char>) -> bool {
    |a: Seq<char>, b: Seq<char>| !text_lt(b, a)
}

/// The texts in ascending order; equal ones are kept.
pub open spec fn sorted_texts(s: Seq<Seq<char>>) -> Seq<Seq<char>> {
    s.sort_by(text_le())
}

proof fn lemma_text_le()
    ensures
        total_ordering(text_le()),
{
    let le = text_le();
    assert forall|x: Seq<char>| #[trigger] le(x, x) by {
        lemma_text_irreflexive(x);
    }
    assert forall|x: Seq<char>, y: Seq<char>| #[trigger] le(x, y) && #[trigger] le(y, x) implies x
        == y by {
        lemma_text_total(x, y);
    }
    assert forall|x: Seq<char>, y: Seq<char>| #[trigger] le(x, y) || #[trigger] le(y, x) by {
        if text_lt(x, y) && text_lt(y, x) {
            lemma_text_transitive(x, y, x);
            lemma_text_irreflexive(x);
        }
    }
    assert forall|x: Seq<char>, y: Seq<char>, z: Seq<char>| #[trigger] le(x, y) && #[trigger] le(
        y,
        z,
    ) implies le(x, z) by {
        lemma_text_total(x, y);
        lemma_text_total(y, z);
        if text_lt(z, x) {
            if x != y {
                lemma_text_transitive(z, x, y);
            }
        }
    }
}

/// The order in which texts come does not matter to how they are sorted.
pub proof fn lemma_sorted_same(a: Seq<Seq<char>>, b: Seq<Seq<char>>)
    requires
        a.to_multiset() == b.to_multiset(),
    ensures
        sorted_texts(a) == sorted_texts(b),
{
    lemma_text_le();
    a.lemma_sort_by_ensures(text_le());
    b.lemma_sort_by_ensures(text_le());
    assert(a.to_multiset() =~= sorted_texts(a).to_multiset());
    assert(b.to_multiset() =~= sorted_texts(b).to_multiset());
    lemma_sorted_unique(sorted_texts(a), sorted_texts(b), text_le());
}

/// Sorting loses nothing and adds nothing, and puts no text before a smaller one.
pub proof fn lemma_sorted_reordered(s: Seq<Seq<char>>)
    ensures
        sorted_texts(s).to_multiset() == s.to_multiset(),
        sorted_texts(s).len() == s.len(),
        forall|i: int, j: int|
            0 <= i < j < s.len() ==> !text_lt(
                #[trigger] sorted_texts(s)[j],
                #[trigger] sorted_texts(s)[i],
            ),
{
    lemma_text_le();
    s.lemma_sort_by_ensures(text_le());
    let t = sorted_texts(s);
    assert(t.to_multiset() =~= s.to_multiset());
    s.to_multiset_ensures();
    t.to_multiset_ensures();
    let le = text_le();
    assert forall|i: int, j: int| 0 <= i < j < s.len() implies !text_lt(
        #[trigger] t[j],
        #[trigger] t[i],
    ) by {
        assert(le(t[i], t[j]));
    }
}

/// Sorts texts.
pub fn sort_texts(items: &Vec<String>) -> (r: Vec<String>)
    ensures
        text_views(r@) == sorted_texts(text_views(items@)),
{
    let ghost all = text_views(items@);
    let ghost le = text_le();
    let mut out: Vec<String> = Vec::new();
    let mut i: usize = 0;
    proof {
        lemma_text_le();
        assert(text_views(out@) =~= all.take(0));
    }
    while i < items.len()
        invariant
            i <= items@.len(),
            all == text_views(items@),
            le == text_le(),
            total_ordering(le),
            sorted_by(text_views(out@), le),
            text_views(out@).to_multiset() == all.take(i as int).to_multiset(),
        decreases items.len() - i,
    {
        let ghost before = text_views(out@);
        let ghost x = all[i as int];
        let mut p: usize = out.len();
        while p > 0 && str_before(items[i].as_str(), out[p - 1].as_str())
            invariant
                i < items@.len(),
                p <= out@.len(),
                before == text_views(out@),
                all == text_views(items@),
                x == all[i as int],
                forall|j: int| p <= j < before.len() ==> text_lt(x, #[trigger] before[j]),
            decreases p,
        {
            assert(before[p - 1] == out@[p - 1]@);
            p -= 1;
        }
        let copy = items[i].as_str().to_string();
        out.insert(p, copy);
        proof {
            let now = text_views(out@);
            assert(now =~= before.insert(p as int, x));
            assert(all.take(i + 1) =~= all.take(i as int).push(x));
            vstd::seq_lib::to_multiset_insert(before, p as int, x);
            vstd::seq_lib::to_multiset_build(all.take(i as int), x);
            assert(now.to_multiset() =~= all.take(i + 1).to_multiset());
            assert forall|a: int, b: int| 0 <= a < b < now.len() implies #[trigger] le(
                now[a],
                now[b],
            ) by {
                if b < p {
                    assert(le(before[a], before[b]));
                } else if b == p {
                    assert(!text_lt(x, before[p - 1]));
                    if a < p - 1 {
                        assert(le(before[a], before[p - 1]));
                        assert(le(before[p - 1], x));
                    }
                } else if a < p {
                    assert(le(before[a], before[b - 1]));
                } else if a == p {
                    assert(text_lt(x, before[b - 1]));
                    assert(le(x, before[b - 1]) || le(before[b - 1], x));
                    if text_lt(before[b - 1], x) {
                        lemma_text_transitive(x, before[b - 1], x);
                        lemma_text_irreflexive(x);
                    }
                } else {
                    assert(le(before[a - 1], before[b - 1]));
                }
            }
        }
        i += 1;
    }
    proof {
        assert(all.take(i as int) =~= all);
        all.lemma_sort_by_ensures(le);
        assert(all.to_multiset() =~= sorted_texts(all).to_multiset());
        lemma_sorted_unique(text_views(out@), sorted_texts(all), le);
    }
    out
}

} // verus!
