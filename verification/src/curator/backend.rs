//! The deterministic backend: it picks sentences for a summary by how much they
//! share with the others, and judges disputes by counting evidence. Beside it
//! stands what an external model is asked and how its answer is read.

use vstd::prelude::*;
use crate::cbor::text_views;
use crate::cells::index::{shared, tokenize, tokens_in};
use crate::curator::{CuratorBackend, Verdict};
use crate::deepseek::{r1_strip, think_split};
use crate::fixed::{
    lemma_of_exponent, lemma_product_exponent, lemma_quotient_exponent, lemma_sum_exponent,
    nearest, number, Positive,
};
use crate::text::{
    cat2, cat4, chars_of, holds, join_texts, joined, starts, str_eq, str_holds, str_starts, string_of,
    trim_text, trimmed, u64_text, dec_text,
};
use crate::textmap::TextSet;
use crate::vocab::{est_tokens, fnv1a64, fnv_of, tokens_of};
use vstd::string::StringSliceAdditionalSpecFns;
use vstd::utf8::encode_utf8;

verus! {

/// A character that ends a sentence.
pub open spec fn is_stop(c: char) -> bool {
    c == '.' || c == '!' || c == '?' || c == '\n'
}

/// A run of characters as a sentence, where more than two bytes are left of it.
pub open spec fn sentence_of(run: Seq<char>) -> Seq<Seq<char>> {
    if encode_utf8(trimmed(run)).len() > 2 {
        seq![trimmed(run)]
    } else {
        Seq::empty()
    }
}

/// The sentences of a text from `i` on, where the current run began at `from`.
pub open spec fn sentences_from(s: Seq<char>, from: int, i: int) -> Seq<Seq<char>>
    decreases s.len() - i,
{
    if i < 0 || i >= s.len() {
        sentence_of(s.subrange(from, s.len() as int))
    } else if is_stop(s[i]) {
        sentence_of(s.subrange(from, i + 1)) + sentences_from(s, i + 1, i + 1)
    } else {
        sentences_from(s, from, i + 1)
    }
}

/// The sentences of a text.
pub open spec fn sentences_of(s: Seq<char>) -> Seq<Seq<char>> {
    sentences_from(s, 0, 0)
}

fn take_sentence(chars: &Vec<char>, from: usize, to: usize, out: &mut Vec<String>)
    requires
        from <= to <= chars@.len(),
    ensures
        text_views(final(out)@) == text_views(old(out)@) + sentence_of(
            chars@.subrange(from as int, to as int),
        ),
{
    let run = string_of(crate::text::chars_between(chars.as_slice(), from, to).as_slice());
    let s = trim_text(run.as_str());
    if s.as_str().as_bytes().len() > 2 {
        out.push(s);
    }
    assert(text_views(out@) =~= text_views(old(out)@) + sentence_of(
        chars@.subrange(from as int, to as int),
    ));
}

/// The sentences of a text, in order.
pub fn split_sentences(text: &str) -> (r: Vec<String>)
    ensures
        text_views(r@) == sentences_of(text@),
{
    let chars = chars_of(text);
    let mut out: Vec<String> = Vec::new();
    let mut from: usize = 0;
    let mut i: usize = 0;
    assert(text_views(out@) + sentences_of(text@) =~= sentences_of(text@));
    while i < chars.len()
        invariant
            from <= i <= chars@.len(),
            chars@ == text@,
            text_views(out@) + sentences_from(text@, from as int, i as int) == sentences_of(text@),
        decreases chars.len() - i,
    {
        let c: char = chars[i];
        i += 1;
        if c == '.' || c == '!' || c == '?' || c == '\n' {
            let ghost before = text_views(out@);
            take_sentence(&chars, from, i, &mut out);
            proof {
                let one = sentence_of(text@.subrange(from as int, i as int));
                let rest = sentences_from(text@, i as int, i as int);
                assert(before + (one + rest) =~= (before + one) + rest);
            }
            from = i;
        }
    }
    take_sentence(&chars, from, chars.len(), &mut out);
    out
}

/// One.
pub open spec fn one() -> Positive {
    Positive { m: 0x10_0000_0000_0000, e: -52i64 }
}

/// The double nearest to 0.15.
pub open spec fn step() -> Positive {
    Positive { m: 0x13_3333_3333_3333, e: -55i64 }
}

/// The weight of a sentence's place: one over one and 0.15 times the place.
pub open spec fn boost_of(i: nat) -> Positive {
    if i == 0 {
        one()
    } else {
        number(
            one().quotient(
                number(one().sum(number(number(nearest(i, 0)).product(step())))),
            ),
        )
    }
}

/// The score of a sentence that shares `overlap` tokens with the others.
pub open spec fn score_of(i: nat, overlap: nat) -> Positive {
    let b = boost_of(i);
    if overlap == 0 {
        b
    } else {
        number(number(number(nearest(overlap, 0)).product(b)).sum(b))
    }
}

fn boost(i: u64) -> (r: Positive)
    ensures
        r == boost_of(i as nat),
        r.normal(),
        -118 <= r.e <= -50,
{
    let unit = Positive { m: 0x10_0000_0000_0000, e: -52 };
    if i == 0 {
        return unit;
    }
    let place = Positive::of(i);
    proof {
        lemma_of_exponent(i);
    }
    let by = Positive { m: 0x13_3333_3333_3333, e: -55 };
    proof {
        lemma_product_exponent(place, by);
    }
    let scaled = place.times(by);
    proof {
        lemma_sum_exponent(unit, scaled);
    }
    let under = unit.plus(scaled);
    proof {
        lemma_quotient_exponent(unit, under);
    }
    unit.over(under)
}

fn score(i: u64, overlap: u64) -> (r: Positive)
    ensures
        r == score_of(i as nat, overlap as nat),
        r.normal(),
{
    let b = boost(i);
    if overlap == 0 {
        return b;
    }
    let n = Positive::of(overlap);
    proof {
        lemma_of_exponent(overlap);
        lemma_product_exponent(n, b);
    }
    let scaled = n.times(b);
    proof {
        lemma_sum_exponent(scaled, b);
    }
    scaled.plus(b)
}

/// How many tokens a sentence shares with the first `n` others, as far as 64
/// bits count.
pub open spec fn overlap_with(sets: Seq<Set<Seq<char>>>, i: int, n: nat) -> nat
    decreases n,
{
    if n == 0 {
        0
    } else {
        let before = overlap_with(sets, i, (n - 1) as nat);
        if n - 1 == i {
            before
        } else {
            let sum = before + sets[i].intersect(sets[n - 1]).len();
            if sum > u64::MAX {
                u64::MAX as nat
            } else {
                sum
            }
        }
    }
}

/// The scores of sentences with those tokens.
pub open spec fn scores_of(sets: Seq<Set<Seq<char>>>) -> Seq<Positive> {
    Seq::new(sets.len(), |i: int| score_of(i as nat, overlap_with(sets, i, sets.len())))
}

/// Puts a sentence behind all that score at least as high.
pub open spec fn placed(order: Seq<int>, i: int, scores: Seq<Positive>) -> Seq<int>
    decreases order.len(),
{
    if order.len() == 0 {
        seq![i]
    } else if scores[i].above(scores[order.last()]) {
        placed(order.drop_last(), i, scores).push(order.last())
    } else {
        order.push(i)
    }
}

/// The first `n` sentences in the order of their rank.
pub open spec fn ranking(scores: Seq<Positive>, n: nat) -> Seq<int>
    decreases n,
{
    if n == 0 {
        Seq::empty()
    } else {
        placed(ranking(scores, (n - 1) as nat), n - 1, scores)
    }
}

/// One sentence ranks before another: by score, and among equals by place.
pub open spec fn outranks(scores: Seq<Positive>, a: int, b: int) -> bool {
    scores[a].above(scores[b]) || (!scores[b].above(scores[a]) && a < b)
}

/// The order lists the first `n` sentences, each once, best first.
pub open spec fn is_ranking(order: Seq<int>, scores: Seq<Positive>, n: nat) -> bool {
    &&& order.len() == n
    &&& forall|i: int| 0 <= i < n <==> #[trigger] order.contains(i)
    &&& forall|p: int, q: int|
        0 <= p < q < order.len() ==> outranks(scores, #[trigger] order[p], #[trigger] order[q])
}

proof fn lemma_placed(order: Seq<int>, i: int, scores: Seq<Positive>)
    requires
        forall|p: int, q: int|
            0 <= p < q < order.len() ==> outranks(scores, #[trigger] order[p], #[trigger] order[q]),
        forall|p: int| 0 <= p < order.len() ==> #[trigger] order[p] < i,
    ensures
        placed(order, i, scores).len() == order.len() + 1,
        forall|x: int| #[trigger]
            placed(order, i, scores).contains(x) <==> order.contains(x) || x == i,
        forall|p: int, q: int|
            0 <= p < q < placed(order, i, scores).len() ==> outranks(
                scores,
                #[trigger] placed(order, i, scores)[p],
                #[trigger] placed(order, i, scores)[q],
            ),
    decreases order.len(),
{
    let out = placed(order, i, scores);
    if order.len() == 0 {
        assert(out[0] == i);
        assert forall|x: int| #[trigger] out.contains(x) implies x == i by {}
    } else {
        let front = order.drop_last();
        let last = order.last();
        assert(order =~= front.push(last));
        assert forall|x: int| #[trigger] order.contains(x) <==> front.contains(x) || x == last by {
            lemma_push_contains(front, last, x);
        }
        if scores[i].above(scores[last]) {
            assert forall|p: int| 0 <= p < front.len() implies #[trigger] front[p] < i by {
                assert(front[p] == order[p]);
            }
            assert forall|p: int, q: int| 0 <= p < q < front.len() implies outranks(
                scores,
                #[trigger] front[p],
                #[trigger] front[q],
            ) by {
                assert(front[p] == order[p] && front[q] == order[q]);
            }
            lemma_placed(front, i, scores);
            let mid = placed(front, i, scores);
            assert forall|x: int| #[trigger] out.contains(x) <==> order.contains(x) || x == i by {
                lemma_push_contains(mid, last, x);
            }
            assert forall|p: int, q: int| 0 <= p < q < out.len() implies outranks(
                scores,
                #[trigger] out[p],
                #[trigger] out[q],
            ) by {
                if q == mid.len() {
                    assert(mid.contains(mid[p]));
                    if mid[p] != i {
                        let k = choose|k: int| 0 <= k < front.len() && front[k] == mid[p];
                        assert(order[k] == mid[p] && order[order.len() - 1] == last);
                    }
                } else {
                    assert(out[p] == mid[p] && out[q] == mid[q]);
                }
            }
        } else {
            assert forall|x: int| #[trigger] out.contains(x) <==> order.contains(x) || x == i by {
                lemma_push_contains(order, i, x);
            }
            assert forall|p: int, q: int| 0 <= p < q < out.len() implies outranks(
                scores,
                #[trigger] out[p],
                #[trigger] out[q],
            ) by {
                if q == order.len() {
                    if p < order.len() - 1 {
                        assert(outranks(scores, order[p], order[order.len() - 1]));
                    }
                    assert(order[p] < i);
                } else {
                    assert(out[p] == order[p] && out[q] == order[q]);
                }
            }
        }
    }
}

proof fn lemma_push_contains(a: Seq<int>, k: int, x: int)
    ensures
        a.push(k).contains(x) == (a.contains(x) || x == k),
{
    if a.contains(x) {
        let j = choose|j: int| 0 <= j < a.len() && a[j] == x;
        assert(a.push(k)[j] == x);
    }
    assert(a.push(k)[a.len() as int] == k);
}

/// The ranking lists every sentence once, higher scores first, and equal scores
/// in the order of the text.
pub proof fn lemma_ranking(scores: Seq<Positive>, n: nat)
    ensures
        is_ranking(ranking(scores, n), scores, n),
    decreases n,
{
    if n > 0 {
        let prev = ranking(scores, (n - 1) as nat);
        lemma_ranking(scores, (n - 1) as nat);
        assert forall|p: int| 0 <= p < prev.len() implies #[trigger] prev[p] < n - 1 by {
            assert(prev.contains(prev[p]));
        }
        lemma_placed(prev, n - 1, scores);
    }
}

/// The token sets of sentences.
pub open spec fn set_views(s: Seq<TextSet>) -> Seq<Set<Seq<char>>> {
    Seq::new(s.len(), |i: int| s[i]@)
}

fn overlap(sets: &Vec<TextSet>, i: usize) -> (r: u64)
    requires
        i < sets@.len(),
    ensures
        r == overlap_with(set_views(sets@), i as int, sets@.len()),
{
    let ghost all = set_views(sets@);
    let mut sum: u64 = 0;
    let mut j: usize = 0;
    while j < sets.len()
        invariant
            i < sets@.len(),
            j <= sets@.len(),
            all == set_views(sets@),
            sum == overlap_with(all, i as int, j as nat),
        decreases sets.len() - j,
    {
        if j != i {
            let n: usize = shared(&sets[i], &sets[j]);
            sum = sum.saturating_add(n as u64);
        }
        j += 1;
    }
    sum
}

/// The order as numbers.
pub open spec fn ints_of(s: Seq<usize>) -> Seq<int> {
    Seq::new(s.len(), |i: int| s[i] as int)
}

/// Ranks sentences by their tokens, best first.
pub fn rank_sets(sets: &Vec<TextSet>) -> (r: Vec<usize>)
    ensures
        ints_of(r@) == ranking(scores_of(set_views(sets@)), sets@.len()),
        is_ranking(ints_of(r@), scores_of(set_views(sets@)), sets@.len()),
{
    let ghost all = set_views(sets@);
    let ghost scores = scores_of(all);
    let mut values: Vec<Positive> = Vec::new();
    let mut i: usize = 0;
    while i < sets.len()
        invariant
            i <= sets@.len(),
            all == set_views(sets@),
            scores == scores_of(all),
            values@ == scores.take(i as int),
        decreases sets.len() - i,
    {
        let o: u64 = overlap(sets, i);
        values.push(score(i as u64, o));
        i += 1;
        assert(values@ =~= scores.take(i as int));
    }
    assert(values@ =~= scores);
    let mut order: Vec<usize> = Vec::new();
    i = 0;
    assert(ints_of(order@) =~= Seq::empty());
    while i < values.len()
        invariant
            i <= values@.len() == sets@.len(),
            values@ == scores,
            ints_of(order@) == ranking(scores, i as nat),
        decreases values.len() - i,
    {
        proof {
            lemma_ranking(scores, i as nat);
            let o = ints_of(order@);
            assert forall|p: int| 0 <= p < order@.len() implies (#[trigger] order@[p]) < i by {
                assert(o.contains(o[p]));
            }
        }
        let ghost was = ints_of(order@);
        let mut at: usize = order.len();
        assert(was.take(at as int) =~= was);
        assert(was.skip(at as int) =~= Seq::empty());
        assert(placed(was, i as int, scores) + was.skip(at as int) =~= placed(
            was,
            i as int,
            scores,
        ));
        while at > 0 && values[i].greater(values[order[at - 1]])
            invariant
                at <= order@.len(),
                i < values@.len(),
                values@ == scores,
                was == ints_of(order@),
                forall|p: int| 0 <= p < order@.len() ==> (#[trigger] order@[p]) < i,
                placed(was, i as int, scores) == placed(was.take(at as int), i as int, scores)
                    + was.skip(at as int),
            decreases at,
        {
            proof {
                let head = was.take(at as int);
                assert(head.last() == was[at - 1]);
                assert(head.drop_last() =~= was.take(at - 1));
                let p = placed(was.take(at - 1), i as int, scores);
                assert(p.push(was[at - 1]) + was.skip(at as int) =~= p + was.skip(at - 1));
            }
            at -= 1;
        }
        proof {
            let head = was.take(at as int);
            if at > 0 {
                assert(head.last() == was[at - 1]);
            }
            assert(placed(head, i as int, scores) =~= head.push(i as int));
        }
        order.insert(at, i);
        assert(ints_of(order@) =~= was.take(at as int).push(i as int) + was.skip(at as int));
        i += 1;
    }
    proof {
        lemma_ranking(scores, sets@.len());
    }
    order
}

/// The token sets of sentences.
pub open spec fn sets_of(sentences: Seq<Seq<char>>) -> Seq<Set<Seq<char>>> {
    Seq::new(sentences.len(), |i: int| tokens_in(sentences[i]).to_set())
}

/// The rough number of tokens of a sentence.
pub open spec fn cost_of(s: Seq<char>) -> int {
    tokens_of(encode_utf8(s).len() as int)
}

/// What is chosen of the sentences in order from `i` on, when `chosen` were and
/// cost `spent`: each that still fits, the first in any case, until the limit
/// is reached.
pub open spec fn picked(
    sentences: Seq<Seq<char>>,
    order: Seq<int>,
    max: nat,
    i: int,
    spent: int,
    chosen: Seq<int>,
) -> Seq<int>
    decreases order.len() - i,
{
    if i < 0 || i >= order.len() {
        chosen
    } else {
        let t = cost_of(sentences[order[i]]);
        if spent + t > max && chosen.len() > 0 {
            picked(sentences, order, max, i + 1, spent, chosen)
        } else if spent + t >= max {
            chosen.push(order[i])
        } else {
            picked(sentences, order, max, i + 1, spent + t, chosen.push(order[i]))
        }
    }
}

/// The first `n` sentences as far as they were chosen, in the order of the text.
pub open spec fn kept(sentences: Seq<Seq<char>>, chosen: Seq<int>, n: nat) -> Seq<Seq<char>>
    decreases n,
{
    if n == 0 {
        Seq::empty()
    } else if chosen.contains(n - 1) {
        kept(sentences, chosen, (n - 1) as nat).push(sentences[n - 1])
    } else {
        kept(sentences, chosen, (n - 1) as nat)
    }
}

/// The summary that sentences with those tokens give.
pub open spec fn summary_of(
    sentences: Seq<Seq<char>>,
    sets: Seq<Set<Seq<char>>>,
    max: nat,
) -> Seq<char> {
    let order = ranking(scores_of(sets), sentences.len());
    joined(kept(sentences, picked(sentences, order, max, 0, 0, Seq::empty()), sentences.len()), " "@)
}

/// The total cost of chosen sentences.
pub open spec fn total_cost(sentences: Seq<Seq<char>>, chosen: Seq<int>) -> int
    decreases chosen.len(),
{
    if chosen.len() == 0 {
        0
    } else {
        total_cost(sentences, chosen.drop_last()) + cost_of(sentences[chosen.last()])
    }
}

/// What is chosen costs no more than the limit, unless it is one sentence.
pub proof fn lemma_picked_bounded(
    sentences: Seq<Seq<char>>,
    order: Seq<int>,
    max: nat,
    i: int,
    spent: int,
    chosen: Seq<int>,
)
    requires
        0 <= i <= order.len(),
        spent == total_cost(sentences, chosen),
        chosen.len() > 0 ==> spent < max,
    ensures
        ({
            let r = picked(sentences, order, max, i, spent, chosen);
            total_cost(sentences, r) <= max || r.len() == 1
        }),
    decreases order.len() - i,
{
    if i < order.len() {
        let t = cost_of(sentences[order[i]]);
        assert(chosen.push(order[i]).drop_last() =~= chosen);
        if spent + t > max && chosen.len() > 0 {
            lemma_picked_bounded(sentences, order, max, i + 1, spent, chosen);
        } else if spent + t < max {
            lemma_picked_bounded(
                sentences,
                order,
                max,
                i + 1,
                spent + t,
                chosen.push(order[i]),
            );
        }
    }
}

/// The total cost of a list of sentences.
pub open spec fn list_cost(list: Seq<Seq<char>>) -> int
    decreases list.len(),
{
    if list.len() == 0 {
        0
    } else {
        list_cost(list.drop_last()) + cost_of(list.last())
    }
}

proof fn lemma_cost_removed(sentences: Seq<Seq<char>>, chosen: Seq<int>, j: int)
    requires
        0 <= j < chosen.len(),
    ensures
        total_cost(sentences, chosen) == total_cost(sentences, chosen.remove(j)) + cost_of(
            sentences[chosen[j]],
        ),
    decreases chosen.len(),
{
    if j == chosen.len() - 1 {
        assert(chosen.remove(j) =~= chosen.drop_last());
    } else {
        lemma_cost_removed(sentences, chosen.drop_last(), j);
        assert(chosen.remove(j).drop_last() =~= chosen.drop_last().remove(j));
        assert(chosen.remove(j).last() == chosen.last());
    }
}

proof fn lemma_kept_same(sentences: Seq<Seq<char>>, a: Seq<int>, b: Seq<int>, n: nat)
    requires
        forall|i: int| 0 <= i < n ==> (#[trigger] a.contains(i) <==> b.contains(i)),
    ensures
        kept(sentences, a, n) == kept(sentences, b, n),
    decreases n,
{
    if n > 0 {
        lemma_kept_same(sentences, a, b, (n - 1) as nat);
        assert(a.contains(n - 1) <==> b.contains(n - 1));
    }
}

proof fn lemma_kept_cost(sentences: Seq<Seq<char>>, chosen: Seq<int>, n: nat)
    ensures
        list_cost(kept(sentences, chosen, n)) <= total_cost(sentences, chosen),
        kept(sentences, chosen, n).len() <= chosen.len(),
        0 <= total_cost(sentences, chosen),
    decreases n, chosen.len(),
{
    if n == 0 {
        if chosen.len() > 0 {
            lemma_kept_cost(sentences, chosen.drop_last(), 0);
        }
    } else if chosen.contains(n - 1) {
        let j = choose|j: int| 0 <= j < chosen.len() && chosen[j] == n - 1;
        let rest = chosen.remove(j);
        let m = (n - 1) as nat;
        assert forall|i: int| 0 <= i < m implies (#[trigger] chosen.contains(i) <==> rest.contains(
            i,
        )) by {
            if chosen.contains(i) {
                let k = choose|k: int| 0 <= k < chosen.len() && chosen[k] == i;
                if k < j {
                    assert(rest[k] == i);
                } else {
                    assert(rest[k - 1] == i);
                }
            }
            if rest.contains(i) {
                let k = choose|k: int| 0 <= k < rest.len() && rest[k] == i;
                if k < j {
                    assert(chosen[k] == i);
                } else {
                    assert(chosen[k + 1] == i);
                }
            }
        }
        lemma_kept_same(sentences, chosen, rest, m);
        lemma_kept_cost(sentences, rest, m);
        lemma_cost_removed(sentences, chosen, j);
        let k = kept(sentences, chosen, m);
        assert(k.push(sentences[n - 1]).drop_last() =~= k);
    } else {
        lemma_kept_cost(sentences, chosen, (n - 1) as nat);
    }
}

/// The sentences of a text that its skeleton is made of, in the order of the text.
pub open spec fn skeleton_sentences(text: Seq<char>, max: nat) -> Seq<Seq<char>> {
    let sentences = sentences_of(text);
    let order = ranking(scores_of(sets_of(sentences)), sentences.len());
    kept(sentences, picked(sentences, order, max, 0, 0, Seq::empty()), sentences.len())
}

/// A skeleton is made of sentences of its text, joined by blanks, whose cost is
/// within the limit, or else of a single sentence.
pub proof fn lemma_skeleton_bounded(text: Seq<char>, max: nat)
    ensures
        DeterministicBackend.skeleton_of(text, max) == joined(skeleton_sentences(text, max), " "@),
        list_cost(skeleton_sentences(text, max)) <= max || skeleton_sentences(text, max).len() <= 1,
{
    let sentences = sentences_of(text);
    let order = ranking(scores_of(sets_of(sentences)), sentences.len());
    let chosen = picked(sentences, order, max, 0, 0, Seq::empty());
    lemma_picked_bounded(sentences, order, max, 0, 0, Seq::empty());
    lemma_kept_cost(sentences, chosen, sentences.len());
}

/// What the sentences that were chosen cost, among the first `r` of a ranking.
pub open spec fn spent_before(
    sentences: Seq<Seq<char>>,
    order: Seq<int>,
    places: Seq<int>,
    r: int,
) -> int
    decreases r,
{
    if r <= 0 {
        0
    } else {
        spent_before(sentences, order, places, r - 1) + if places.contains(order[r - 1]) {
            cost_of(sentences[order[r - 1]])
        } else {
            0
        }
    }
}

proof fn lemma_spent_same(
    sentences: Seq<Seq<char>>,
    order: Seq<int>,
    a: Seq<int>,
    b: Seq<int>,
    r: int,
)
    requires
        forall|k: int| 0 <= k < r ==> (a.contains(#[trigger] order[k]) <==> b.contains(order[k])),
    ensures
        spent_before(sentences, order, a, r) == spent_before(sentences, order, b, r),
    decreases r,
{
    if r > 0 {
        lemma_spent_same(sentences, order, a, b, r - 1);
        assert(a.contains(order[r - 1]) <==> b.contains(order[r - 1]));
    }
}

proof fn lemma_spent_grows(
    sentences: Seq<Seq<char>>,
    order: Seq<int>,
    places: Seq<int>,
    q: int,
    r: int,
)
    requires
        q <= r,
    ensures
        spent_before(sentences, order, places, q) <= spent_before(sentences, order, places, r),
    decreases r - q,
{
    if q < r {
        lemma_spent_grows(sentences, order, places, q, r - 1);
    }
}

proof fn lemma_picked_maximal(
    sentences: Seq<Seq<char>>,
    order: Seq<int>,
    max: nat,
    i: int,
    spent: int,
    chosen: Seq<int>,
)
    requires
        0 <= i <= order.len(),
        order.no_duplicates(),
        forall|x: int| #[trigger] chosen.contains(x) ==> order.take(i).contains(x),
        spent == spent_before(sentences, order, chosen, i),
        chosen.len() > 0 ==> spent < max,
    ensures
        ({
            let r = picked(sentences, order, max, i, spent, chosen);
            &&& forall|k: int|
                0 <= k < i ==> (r.contains(#[trigger] order[k]) <==> chosen.contains(order[k]))
            &&& forall|x: int| #[trigger] r.contains(x) ==> order.contains(x)
            &&& forall|k: int|
                i <= k < order.len() && !r.contains(#[trigger] order[k]) ==> spent_before(
                    sentences,
                    order,
                    r,
                    k,
                ) + cost_of(sentences[order[k]]) > max || spent_before(sentences, order, r, k)
                    >= max
            &&& chosen.len() == 0 && i < order.len() ==> r.contains(order[i])
        }),
    decreases order.len() - i,
{
    let r = picked(sentences, order, max, i, spent, chosen);
    if i >= order.len() {
        assert(order.take(i) =~= order);
    } else {
        let x = order[i];
        let t = cost_of(sentences[x]);
        assert(!chosen.contains(x)) by {
            if chosen.contains(x) {
                let k = order.take(i).index_of(x);
                assert(order[k] == x);
            }
        }
        assert forall|y: int| #[trigger] chosen.contains(y) implies order.take(i + 1).contains(y) by {
            let k = order.take(i).index_of(y);
            assert(order.take(i + 1)[k] == y);
        }
        let more = chosen.push(x);
        assert forall|y: int| #[trigger] more.contains(y) <==> chosen.contains(y) || y == x by {
            lemma_push_contains(chosen, x, y);
        }
        assert forall|y: int| #[trigger] more.contains(y) implies order.take(i + 1).contains(y) by {
            if y == x {
                assert(order.take(i + 1)[i] == x);
            }
        }
        assert forall|k: int| 0 <= k < i implies (more.contains(#[trigger] order[k])
            <==> chosen.contains(order[k])) by {
            assert(order[k] != x);
        }
        lemma_spent_same(sentences, order, more, chosen, i);
        if spent + t > max && chosen.len() > 0 {
            lemma_picked_maximal(sentences, order, max, i + 1, spent, chosen);
            lemma_spent_same(sentences, order, r, chosen, i);
        } else if spent + t >= max {
            assert forall|k: int| i <= k < order.len() && !r.contains(#[trigger] order[k]) implies
                spent_before(sentences, order, r, k) >= max by {
                assert(k != i);
                lemma_spent_grows(sentences, order, r, i + 1, k);
            }
            assert forall|y: int| #[trigger] r.contains(y) implies order.contains(y) by {
                let k = order.take(i + 1).index_of(y);
                assert(order[k] == y);
            }
        } else {
            lemma_picked_maximal(sentences, order, max, i + 1, spent + t, more);
        }
    }
}

/// The chosen among the first `n` sentences, in the order of the text.
pub open spec fn places_of(chosen: Seq<int>, n: nat) -> Seq<int>
    decreases n,
{
    if n == 0 {
        Seq::empty()
    } else if chosen.contains(n - 1) {
        places_of(chosen, (n - 1) as nat).push(n - 1)
    } else {
        places_of(chosen, (n - 1) as nat)
    }
}

proof fn lemma_places(sentences: Seq<Seq<char>>, chosen: Seq<int>, n: nat)
    requires
        n <= sentences.len(),
    ensures
        ({
            let p = places_of(chosen, n);
            &&& forall|x: int| #[trigger] p.contains(x) <==> 0 <= x < n && chosen.contains(x)
            &&& forall|i: int, j: int| 0 <= i < j < p.len() ==> #[trigger] p[i] < #[trigger] p[j]
            &&& kept(sentences, chosen, n) == Seq::new(p.len(), |i: int| sentences[p[i]])
        }),
    decreases n,
{
    if n > 0 {
        let before = places_of(chosen, (n - 1) as nat);
        let p = places_of(chosen, n);
        lemma_places(sentences, chosen, (n - 1) as nat);
        if chosen.contains(n - 1) {
            assert forall|x: int| #[trigger] p.contains(x) <==> 0 <= x < n && chosen.contains(x) by {
                lemma_push_contains(before, n - 1, x);
                assert(before.contains(x) <==> 0 <= x < n - 1 && chosen.contains(x));
            }
            assert forall|i: int, j: int| 0 <= i < j < p.len() implies #[trigger] p[i]
                < #[trigger] p[j] by {
                assert(before.contains(before[i]));
                if j < before.len() {
                    assert(before[i] < before[j]);
                }
            }
            assert(kept(sentences, chosen, n) =~= Seq::new(p.len(), |i: int| sentences[p[i]]));
        }
    }
}

/// A skeleton within a limit is made of the sentences at these places: they stand in
/// the order of the text, joined by blanks. The best sentence is among them. Every
/// sentence that is left out would exceed the limit together with those before it in
/// rank that were chosen, unless these reached it already; and what was chosen keeps
/// within the limit, unless it is one sentence.
pub open spec fn made_of(text: Seq<char>, max: nat, places: Seq<int>) -> bool {
    let all = sentences_of(text);
    let order = ranking(scores_of(sets_of(all)), all.len());
    &&& DeterministicBackend.skeleton_of(text, max) == joined(
        Seq::new(places.len(), |i: int| all[places[i]]),
        " "@,
    )
    &&& forall|i: int| 0 <= i < places.len() ==> 0 <= #[trigger] places[i] < all.len()
    &&& forall|i: int, j: int|
        0 <= i < j < places.len() ==> #[trigger] places[i] < #[trigger] places[j]
    &&& all.len() > 0 ==> places.contains(order[0])
    &&& forall|r: int|
        0 <= r < order.len() && !places.contains(#[trigger] order[r]) ==> spent_before(
            all,
            order,
            places,
            r,
        ) + cost_of(all[order[r]]) > max || spent_before(all, order, places, r) >= max
    &&& list_cost(Seq::new(places.len(), |i: int| all[places[i]])) <= max || places.len() <= 1
}

/// A skeleton takes the sentences of its text by rank, as many as the limit allows.
pub proof fn lemma_skeleton_maximal(text: Seq<char>, max: nat)
    ensures
        exists|places: Seq<int>| #[trigger] made_of(text, max, places),
{
    let all = sentences_of(text);
    let scores = scores_of(sets_of(all));
    let order = ranking(scores, all.len());
    let chosen = picked(all, order, max, 0, 0, Seq::empty());
    let places = places_of(chosen, all.len());
    lemma_ranking(scores, all.len());
    lemma_order_once(scores, all.len());
    lemma_picked_maximal(all, order, max, 0, 0, Seq::empty());
    lemma_places(all, chosen, all.len());
    lemma_skeleton_bounded(text, max);
    assert forall|k: int| 0 <= k < order.len() implies 0 <= #[trigger] order[k] < all.len() by {
        assert(order.contains(order[k]));
    }
    assert forall|r: int| 0 <= r < order.len() && !places.contains(#[trigger] order[r]) implies
        spent_before(all, order, places, r) + cost_of(all[order[r]]) > max || spent_before(
        all,
        order,
        places,
        r,
    ) >= max by {
        assert forall|k: int| 0 <= k < r implies (places.contains(#[trigger] order[k])
            <==> chosen.contains(order[k])) by {}
        lemma_spent_same(all, order, places, chosen, r);
    }
    assert forall|i: int| 0 <= i < places.len() implies 0 <= #[trigger] places[i] < all.len() by {
        assert(places.contains(places[i]));
    }
    assert(made_of(text, max, places));
}

proof fn lemma_order_once(scores: Seq<Positive>, n: nat)
    ensures
        ranking(scores, n).no_duplicates(),
        ranking(scores, n).len() == n,
        forall|x: int| #[trigger] ranking(scores, n).contains(x) <==> 0 <= x < n,
{
    lemma_ranking(scores, n);
    let order = ranking(scores, n);
    assert forall|i: int, j: int| 0 <= i < order.len() && 0 <= j < order.len() && i != j implies order[i]
        != order[j] by {
        if i < j {
            assert(outranks(scores, order[i], order[j]));
        } else {
            assert(outranks(scores, order[j], order[i]));
        }
    }
}

proof fn lemma_order_cost(sentences: Seq<Seq<char>>, order: Seq<int>, n: nat)
    requires
        n <= sentences.len(),
        order.no_duplicates(),
        order.len() == n,
        forall|x: int| #[trigger] order.contains(x) <==> 0 <= x < n,
    ensures
        total_cost(sentences, order) == list_cost(sentences.take(n as int)),
    decreases n,
{
    if n == 0 {
        assert(sentences.take(0) =~= Seq::empty());
    } else {
        assert(order.contains(n - 1));
        let j = order.index_of(n - 1);
        let rest = order.remove(j);
        lemma_cost_removed(sentences, order, j);
        assert forall|x: int| #[trigger] rest.contains(x) <==> 0 <= x < n - 1 by {
            if rest.contains(x) {
                let k = rest.index_of(x);
                let m = if k < j {
                    k
                } else {
                    k + 1
                };
                assert(order[m] == x);
                assert(order.contains(x));
                assert(m != j);
            }
            if 0 <= x < n - 1 {
                assert(order.contains(x));
                let k = order.index_of(x);
                assert(rest[if k < j {
                    k
                } else {
                    k - 1
                }] == x);
            }
        }
        assert(rest.no_duplicates());
        lemma_order_cost(sentences, rest, (n - 1) as nat);
        let t = sentences.take(n as int);
        assert(t.drop_last() =~= sentences.take(n - 1));
        assert(t.last() == sentences[n - 1]);
    }
}

proof fn lemma_spent_part(
    sentences: Seq<Seq<char>>,
    order: Seq<int>,
    places: Seq<int>,
    r: int,
)
    requires
        0 <= r < order.len(),
    ensures
        spent_before(sentences, order, places, r) + cost_of(sentences[order[r]]) <= total_cost(
            sentences,
            order,
        ),
{
    lemma_spent_within(sentences, order, places, r);
    assert(order.take(r + 1).drop_last() =~= order.take(r));
    lemma_cost_grows(sentences, order, r + 1);
}

proof fn lemma_spent_within(
    sentences: Seq<Seq<char>>,
    order: Seq<int>,
    places: Seq<int>,
    r: int,
)
    requires
        0 <= r <= order.len(),
    ensures
        spent_before(sentences, order, places, r) <= total_cost(sentences, order.take(r)),
    decreases r,
{
    if r > 0 {
        lemma_spent_within(sentences, order, places, r - 1);
        assert(order.take(r).drop_last() =~= order.take(r - 1));
    }
}

proof fn lemma_cost_grows(sentences: Seq<Seq<char>>, order: Seq<int>, r: int)
    requires
        0 <= r <= order.len(),
    ensures
        total_cost(sentences, order.take(r)) <= total_cost(sentences, order),
    decreases order.len() - r,
{
    if r < order.len() {
        lemma_cost_grows(sentences, order, r + 1);
        assert(order.take(r + 1).drop_last() =~= order.take(r));
    } else {
        assert(order.take(r) =~= order);
    }
}

/// A text whose sentences cost less than the limit altogether has all of them for its
/// skeleton.
pub proof fn lemma_skeleton_whole(text: Seq<char>, max: nat)
    requires
        list_cost(sentences_of(text)) < max,
    ensures
        DeterministicBackend.skeleton_of(text, max) == joined(sentences_of(text), " "@),
        skeleton_sentences(text, max) == sentences_of(text),
{
    let all = sentences_of(text);
    let scores = scores_of(sets_of(all));
    let order = ranking(scores, all.len());
    let chosen = picked(all, order, max, 0, 0, Seq::empty());
    lemma_order_once(scores, all.len());
    lemma_picked_maximal(all, order, max, 0, 0, Seq::empty());
    lemma_order_cost(all, order, all.len());
    assert(all.take(all.len() as int) =~= all);
    assert forall|x: int| 0 <= x < all.len() implies #[trigger] chosen.contains(x) by {
        assert(order.contains(x));
        let r = order.index_of(x);
        assert(order[r] == x);
        lemma_spent_part(all, order, chosen, r);
        if !chosen.contains(order[r]) {
            assert(cost_of(all[order[r]]) >= 0);
        }
    }
    lemma_kept_all(all, chosen, all.len());
    assert(all.take(all.len() as int) =~= all);
}

proof fn lemma_kept_all(sentences: Seq<Seq<char>>, chosen: Seq<int>, n: nat)
    requires
        n <= sentences.len(),
        forall|x: int| 0 <= x < n ==> #[trigger] chosen.contains(x),
    ensures
        kept(sentences, chosen, n) == sentences.take(n as int),
    decreases n,
{
    if n > 0 {
        lemma_kept_all(sentences, chosen, (n - 1) as nat);
        assert(chosen.contains(n - 1));
        assert(sentences.take(n as int) =~= sentences.take(n - 1).push(sentences[n - 1]));
    } else {
        assert(sentences.take(0) =~= Seq::empty());
    }
}

proof fn lemma_sentences_shift(a: Seq<char>, b: Seq<char>, f: int, i: int)
    requires
        0 <= f <= i <= b.len(),
    ensures
        sentences_from(a + b, a.len() + f, a.len() + i) == sentences_from(b, f, i),
    decreases b.len() - i,
{
    let s = a + b;
    let n = a.len() as int;
    if i < b.len() {
        assert(s[n + i] == b[i]);
        assert(s.subrange(n + f, n + i + 1) =~= b.subrange(f, i + 1));
        if is_stop(b[i]) {
            lemma_sentences_shift(a, b, i + 1, i + 1);
        } else {
            lemma_sentences_shift(a, b, f, i + 1);
        }
    } else {
        assert(s.subrange(n + f, s.len() as int) =~= b.subrange(f, b.len() as int));
    }
}

proof fn lemma_blank_sentence()
    ensures
        sentence_of(Seq::empty()) == Seq::<Seq<char>>::empty(),
{
    assert(trimmed(Seq::<char>::empty()) =~= Seq::empty());
    reveal_with_fuel(encode_utf8, 2);
    assert(encode_utf8(Seq::<char>::empty()) =~= Seq::empty());
}

proof fn lemma_sentences_split(a: Seq<char>, b: Seq<char>, f: int, i: int)
    requires
        0 <= f <= i <= a.len(),
        a.len() > 0,
        is_stop(a.last()),
        i == a.len() ==> f == i,
    ensures
        sentences_from(a + b, f, i) == sentences_from(a, f, i) + sentences_of(b),
    decreases a.len() - i,
{
    let s = a + b;
    if i == a.len() {
        lemma_sentences_shift(a, b, 0, 0);
        assert(a.subrange(i, i) =~= Seq::empty());
        lemma_blank_sentence();
        assert(Seq::<Seq<char>>::empty() + sentences_of(b) =~= sentences_of(b));
    } else {
        assert(s[i] == a[i]);
        assert(s.subrange(f, i + 1) =~= a.subrange(f, i + 1));
        if is_stop(a[i]) {
            lemma_sentences_split(a, b, i + 1, i + 1);
            let one = sentence_of(a.subrange(f, i + 1));
            let rest = sentences_from(a, i + 1, i + 1);
            assert(one + (rest + sentences_of(b)) =~= (one + rest) + sentences_of(b));
        } else {
            assert(i + 1 < a.len());
            lemma_sentences_split(a, b, f, i + 1);
        }
    }
}

/// A full stop, an exclamation mark, a question mark or the end of a line ends a
/// sentence: the sentences of a text are those up to there and those behind it.
pub proof fn lemma_sentences_end(a: Seq<char>, b: Seq<char>)
    requires
        a.len() > 0,
        a.last() == '.' || a.last() == '!' || a.last() == '?' || a.last() == '\n',
    ensures
        sentences_of(a + b) == sentences_of(a) + sentences_of(b),
{
    lemma_sentences_split(a, b, 0, 0);
}

/// Nothing else does: a text in which none of these stands before its last character
/// is one sentence without the white space around it, and none where two bytes or
/// fewer are left of it.
pub proof fn lemma_one_sentence(s: Seq<char>)
    requires
        forall|k: int|
            0 <= k < s.len() - 1 ==> (#[trigger] s[k]) != '.' && s[k] != '!' && s[k] != '?' && s[k]
                != '\n',
    ensures
        sentences_of(s) == if encode_utf8(trimmed(s)).len() > 2 {
            seq![trimmed(s)]
        } else {
            Seq::empty()
        },
{
    lemma_run_on(s, 0);
}

proof fn lemma_run_on(s: Seq<char>, i: int)
    requires
        0 <= i <= s.len(),
        forall|k: int|
            0 <= k < s.len() - 1 ==> (#[trigger] s[k]) != '.' && s[k] != '!' && s[k] != '?' && s[k]
                != '\n',
    ensures
        sentences_from(s, 0, i) == sentence_of(s),
    decreases s.len() - i,
{
    assert(s.subrange(0, s.len() as int) =~= s);
    if i < s.len() {
        if is_stop(s[i]) {
            assert(i == s.len() - 1);
            assert(s.subrange(0, i + 1) =~= s);
            assert(s.subrange(i + 1, s.len() as int) =~= Seq::empty());
            assert(sentences_from(s, i + 1, i + 1) == sentence_of(
                s.subrange(i + 1, s.len() as int),
            ));
            lemma_blank_sentence();
            assert(sentence_of(s) + Seq::<Seq<char>>::empty() =~= sentence_of(s));
        } else {
            lemma_run_on(s, i + 1);
        }
    }
}

proof fn lemma_marked_filter(lines: Seq<Seq<char>>, mark: Seq<char>)
    ensures
        count_marked(lines, mark) == lines.filter(|l: Seq<char>| starts(l, mark)).len(),
    decreases lines.len(),
{
    reveal(Seq::filter);
    if lines.len() > 0 {
        lemma_marked_filter(lines.drop_last(), mark);
    }
}

/// The evidence decides a dispute for the side that more lines speak for; a judge is
/// uncertain only where as many speak for the one as for the other.
pub proof fn lemma_tally(seed: u64, dispute: Seq<char>, evidence: Seq<Seq<char>>)
    ensures
        ({
            let with = evidence.filter(|l: Seq<char>| starts(l, "supports_initiator"@)).len();
            let against = evidence.filter(|l: Seq<char>| starts(l, "supports_auditor"@)).len();
            let v = DeterministicBackend.verdict_of(seed, dispute, evidence);
            &&& with > against ==> v is InitiatorCorrect
            &&& against > with ==> v is AuditorCorrect
            &&& v is Uncertain ==> with == against
        }),
{
    lemma_marked_filter(evidence, "supports_initiator"@);
    lemma_marked_filter(evidence, "supports_auditor"@);
}

/// The summary of sentences with those tokens.
pub fn summarise(sentences: &Vec<String>, sets: &Vec<TextSet>, max_tokens: usize) -> (r: String)
    requires
        sentences@.len() == sets@.len(),
    ensures
        r@ == summary_of(text_views(sentences@), set_views(sets@), max_tokens as nat),
{
    let ghost all = text_views(sentences@);
    let n: usize = sentences.len();
    let order = rank_sets(sets);
    let ghost o = ints_of(order@);
    let ghost whole = picked(all, o, max_tokens as nat, 0, 0, Seq::empty());
    let mut flags: Vec<bool> = Vec::new();
    let mut k: usize = 0;
    while k < n
        invariant
            k <= n,
            flags@.len() == k,
            forall|j: int| 0 <= j < k ==> !(#[trigger] flags@[j]),
        decreases n - k,
    {
        flags.push(false);
        k += 1;
    }
    assert forall|j: int| 0 <= j < o.len() implies 0 <= #[trigger] o[j] < n by {
        assert(o.contains(o[j]));
    }
    let mut spent: usize = 0;
    let ghost mut chosen: Seq<int> = Seq::empty();
    let mut any: bool = false;
    let mut i: usize = 0;
    let mut full: bool = false;
    while i < order.len() && !full
        invariant
            i <= order@.len(),
            n == sentences@.len() == flags@.len(),
            order@.len() == n,
            all == text_views(sentences@),
            o == ints_of(order@),
            any == (chosen.len() > 0),
            any ==> spent < max_tokens || full,
            !any ==> spent == 0,
            forall|j: int| 0 <= j < o.len() ==> 0 <= #[trigger] o[j] < n,
            forall|j: int| 0 <= j < n ==> #[trigger] flags@[j] == chosen.contains(j),
            whole == if full {
                chosen
            } else {
                picked(all, o, max_tokens as nat, i as int, spent as int, chosen)
            },
        decreases order.len() - i + if full { 0int } else { 1 },
    {
        let at: usize = order[i];
        assert(o[i as int] == at);
        assert(all[at as int] == sentences@[at as int]@);
        let t: usize = est_tokens(sentences[at].as_str().as_bytes().len()) as usize;
        if any && t > max_tokens - spent {
            i += 1;
        } else {
            let ghost was = chosen;
            proof {
                chosen = chosen.push(at as int);
                assert forall|x: int| #[trigger] chosen.contains(x) == (was.contains(x) || x == at) by {
                    lemma_push_contains(was, at as int, x);
                }
            }
            flags.set(at, true);
            any = true;
            if t >= max_tokens - spent {
                full = true;
            } else {
                spent = spent + t;
                i += 1;
            }
        }
    }
    let mut out: Vec<String> = Vec::new();
    k = 0;
    assert(text_views(out@) =~= Seq::empty());
    while k < n
        invariant
            k <= n == sentences@.len() == flags@.len(),
            all == text_views(sentences@),
            forall|j: int| 0 <= j < n ==> #[trigger] flags@[j] == chosen.contains(j),
            text_views(out@) == kept(all, chosen, k as nat),
        decreases n - k,
    {
        if flags[k] {
            let ghost before = text_views(out@);
            let s = sentences[k].as_str().to_string();
            out.push(s);
            assert(text_views(out@) =~= before.push(all[k as int]));
        }
        k += 1;
    }
    let r = join_texts(out.as_slice(), " ");
    assert(text_views(out@) =~= Seq::new(out@.len(), |i: int| out@[i]@));
    r
}

/// How many lines begin with a mark.
pub open spec fn count_marked(lines: Seq<Seq<char>>, mark: Seq<char>) -> nat
    decreases lines.len(),
{
    if lines.len() == 0 {
        0
    } else {
        count_marked(lines.drop_last(), mark) + if starts(lines.last(), mark) {
            1nat
        } else {
            0
        }
    }
}

fn count_lines(lines: &Vec<String>, mark: &str) -> (r: usize)
    ensures
        r == count_marked(text_views(lines@), mark@),
{
    let ghost all = text_views(lines@);
    let mut n: usize = 0;
    let mut i: usize = 0;
    assert(all.take(0) =~= Seq::empty());
    while i < lines.len()
        invariant
            i <= lines@.len(),
            n <= i,
            all == text_views(lines@),
            n == count_marked(all.take(i as int), mark@),
        decreases lines.len() - i,
    {
        assert(all.take(i + 1).drop_last() =~= all.take(i as int));
        if str_starts(lines[i].as_str(), mark) {
            n += 1;
        }
        i += 1;
    }
    assert(all.take(lines@.len() as int) =~= all);
    n
}

/// The verdict that evidence gives: the side with more lines, and for a tie a
/// stable lean that seed and dispute give.
pub open spec fn tally(seed: u64, dispute: Seq<char>, evidence: Seq<Seq<char>>) -> Verdict {
    let init = count_marked(evidence, "supports_initiator"@);
    let audit = count_marked(evidence, "supports_auditor"@);
    if init > audit {
        Verdict::InitiatorCorrect
    } else if audit > init {
        Verdict::AuditorCorrect
    } else {
        let h = fnv_of(encode_utf8(dispute)) ^ seed;
        if h % 8 == 0 {
            Verdict::Uncertain
        } else if h % 2 == 0 {
            Verdict::InitiatorCorrect
        } else {
            Verdict::AuditorCorrect
        }
    }
}

/// The default backend.
#[derive(Clone, Copy, Debug)]
pub struct DeterministicBackend;

impl DeterministicBackend {
    /// The sentences of a text in the order of their rank, each with its place.
    pub fn rank_sentences(text: &str) -> (r: Vec<(usize, String)>)
        ensures
            ({
                let all = sentences_of(text@);
                let order = ranking(scores_of(sets_of(all)), all.len());
                &&& r@.len() == order.len()
                &&& forall|i: int|
                    0 <= i < r@.len() ==> (#[trigger] r@[i]).0 == order[i] && r@[i].1@
                        == all[order[i]]
            }),
    {
        let sentences = split_sentences(text);
        let sets = token_sets(&sentences);
        let order = rank_sets(&sets);
        let ghost all = sentences_of(text@);
        let ghost want = ints_of(order@);
        assert forall|j: int| 0 <= j < want.len() implies 0 <= #[trigger] want[j] < all.len() by {
            assert(want.contains(want[j]));
            assert(set_views(sets@).len() == all.len());
        }
        let mut out: Vec<(usize, String)> = Vec::new();
        let mut i: usize = 0;
        while i < order.len()
            invariant
                i <= order@.len(),
                out@.len() == i,
                all == text_views(sentences@),
                want == ints_of(order@),
                forall|j: int| 0 <= j < want.len() ==> 0 <= #[trigger] want[j] < all.len(),
                forall|j: int|
                    0 <= j < i ==> (#[trigger] out@[j]).0 == want[j] && out@[j].1@ == all[want[j]],
            decreases order.len() - i,
        {
            let at: usize = order[i];
            assert(want[i as int] == at);
            assert(all[at as int] == sentences@[at as int]@);
            out.push((at, sentences[at].as_str().to_string()));
            i += 1;
        }
        out
    }
}

/// The token sets of sentences.
pub fn token_sets(sentences: &Vec<String>) -> (r: Vec<TextSet>)
    ensures
        set_views(r@) == sets_of(text_views(sentences@)),
{
    let ghost want = sets_of(text_views(sentences@));
    let mut out: Vec<TextSet> = Vec::new();
    let mut i: usize = 0;
    assert(set_views(out@) =~= want.take(0));
    while i < sentences.len()
        invariant
            i <= sentences@.len(),
            want == sets_of(text_views(sentences@)),
            set_views(out@) == want.take(i as int),
        decreases sentences.len() - i,
    {
        let tokens = tokenize(sentences[i].as_str());
        let set = TextSet::of(tokens.as_slice());
        let ghost before = set_views(out@);
        out.push(set);
        assert(set_views(out@) =~= before.push(set@));
        i += 1;
        assert(want.take(i as int) =~= want.take(i - 1).push(want[i - 1]));
    }
    assert(want.take(want.len() as int) =~= want);
    out
}

impl CuratorBackend for DeterministicBackend {
    open spec fn skeleton_of(&self, text: Seq<char>, max_tokens: nat) -> Seq<char> {
        summary_of(sentences_of(text), sets_of(sentences_of(text)), max_tokens)
    }

    open spec fn verdict_of(
        &self,
        seed: u64,
        dispute: Seq<char>,
        evidence: Seq<Seq<char>>,
    ) -> Verdict {
        tally(seed, dispute, evidence)
    }

    open spec fn name(&self) -> Seq<char> {
        "deterministic.v1"@
    }

    fn backend_id(&self) -> (r: String) {
        "deterministic.v1".to_string()
    }

    fn skeleton(&self, text: &str, max_tokens: usize) -> (r: String) {
        let sentences = split_sentences(text);
        let sets = token_sets(&sentences);
        assert(sets@.len() == set_views(sets@).len());
        summarise(&sentences, &sets, max_tokens)
    }

    fn adjudicate(&self, seed: u64, dispute_summary: &str, evidence: &Vec<String>) -> (r: Verdict) {
        let init: usize = count_lines(evidence, "supports_initiator");
        let audit: usize = count_lines(evidence, "supports_auditor");
        if init > audit {
            Verdict::InitiatorCorrect
        } else if audit > init {
            Verdict::AuditorCorrect
        } else {
            let h: u64 = fnv1a64(dispute_summary.as_bytes()) ^ seed;
            if h % 8 == 0 {
                Verdict::Uncertain
            } else if h % 2 == 0 {
                Verdict::InitiatorCorrect
            } else {
                Verdict::AuditorCorrect
            }
        }
    }
}

/// What an external model is asked for a summary.
pub open spec fn summary_prompt(text: Seq<char>, max_tokens: nat) -> Seq<char> {
    "Summarize the following into at most "@ + dec_text(max_tokens)
        + " tokens. Output only the summary.\n\n"@ + text
}

/// What an external model is asked for a verdict.
pub open spec fn verdict_prompt(dispute: Seq<char>, evidence: Seq<Seq<char>>) -> Seq<char> {
    "You are an impartial adjudicator. Given the dispute and evidence, answer with exactly one word: INITIATOR, AUDITOR, or UNCERTAIN.\n\nDispute: "@
        + dispute + "\n\nEvidence:\n"@ + joined(evidence, "\n"@)
}

/// The arguments for the external program: the weights, no randomness, the
/// seed, the limit and the prompt.
pub open spec fn model_args(weights: Seq<char>, seed: u64, max_tokens: nat, prompt: Seq<char>) -> Seq<
    Seq<char>,
> {
    seq![
        "-m"@,
        weights,
        "--temp"@,
        "0"@,
        "--seed"@,
        dec_text(seed as nat),
        "-n"@,
        dec_text(max_tokens),
        "--no-display-prompt"@,
        "-p"@,
        prompt,
    ]
}

/// The answer in what a model put out: without its thoughts, and none where it
/// failed or said nothing.
pub open spec fn answer_of(success: bool, output: Seq<char>) -> Option<Seq<char>> {
    if !success || trimmed(output).len() == 0 {
        None
    } else {
        Some(trimmed(think_split(trimmed(output)).0))
    }
}

/// The upper-case form of an ASCII letter.
pub open spec fn ascii_upper(c: char) -> char {
    if 'a' <= c <= 'z' {
        ((c as u8) - 32) as u8 as char
    } else {
        c
    }
}

/// The verdict that an answer names.
pub open spec fn named_verdict(answer: Seq<char>) -> Option<Verdict> {
    let s = answer.map_values(|c: char| ascii_upper(c));
    if holds(s, "INITIATOR"@) {
        Some(Verdict::InitiatorCorrect)
    } else if holds(s, "AUDITOR"@) {
        Some(Verdict::AuditorCorrect)
    } else if holds(s, "UNCERTAIN"@) {
        Some(Verdict::Uncertain)
    } else {
        None
    }
}

/// What asks an external model: its name, its weights and the program that runs
/// it. Where it gives no answer the deterministic backend answers.
#[derive(Debug)]
pub struct ExternalGgufBackend {
    pub model_name: String,
    pub weight_path: String,
    pub cmd: String,
}

impl ExternalGgufBackend {
    /// The arguments that ask for a summary.
    pub open spec fn asks_summary(&self, text: Seq<char>, max_tokens: nat) -> Seq<Seq<char>> {
        model_args(self.weight_path@, 0, max_tokens + 16, summary_prompt(text, max_tokens))
    }

    /// The arguments that ask for a verdict.
    pub open spec fn asks_verdict(
        &self,
        seed: u64,
        dispute: Seq<char>,
        evidence: Seq<Seq<char>>,
    ) -> Seq<Seq<char>> {
        model_args(self.weight_path@, seed, 8, verdict_prompt(dispute, evidence))
    }

    pub fn new(model_name: &str, weight_path: &str, cmd: &str) -> (r: Self)
        ensures
            r.model_name@ == model_name@,
            r.weight_path@ == weight_path@,
            r.cmd@ == cmd@,
    {
        ExternalGgufBackend {
            model_name: model_name.to_string(),
            weight_path: weight_path.to_string(),
            cmd: cmd.to_string(),
        }
    }

    pub fn backend_id(&self) -> (r: String)
        ensures
            r@ == "gguf."@ + self.model_name@,
    {
        cat2("gguf.", self.model_name.as_str())
    }

    fn args(&self, seed: u64, max_tokens: u64, prompt: String) -> (r: Vec<String>)
        ensures
            text_views(r@) == model_args(self.weight_path@, seed, max_tokens as nat, prompt@),
    {
        let r: Vec<String> = vec![
            "-m".to_string(),
            self.weight_path.as_str().to_string(),
            "--temp".to_string(),
            "0".to_string(),
            "--seed".to_string(),
            u64_text(seed),
            "-n".to_string(),
            u64_text(max_tokens),
            "--no-display-prompt".to_string(),
            "-p".to_string(),
            prompt,
        ];
        assert(text_views(r@) =~= model_args(
            self.weight_path@,
            seed,
            max_tokens as nat,
            prompt@,
        ));
        r
    }

    /// The arguments that ask for a summary.
    pub fn skeleton_args(&self, text: &str, max_tokens: usize) -> (r: Vec<String>)
        requires
            max_tokens + 16 <= usize::MAX,
        ensures
            text_views(r@) == self.asks_summary(text@, max_tokens as nat),
    {
        let prompt = cat4(
            "Summarize the following into at most ",
            u64_text(max_tokens as u64).as_str(),
            " tokens. Output only the summary.\n\n",
            text,
        );
        self.args(0, (max_tokens + 16) as u64, prompt)
    }

    /// The arguments that ask for a verdict.
    pub fn adjudicate_args(&self, seed: u64, dispute_summary: &str, evidence: &Vec<String>) -> (r: Vec<
        String,
    >)
        ensures
            text_views(r@) == self.asks_verdict(seed, dispute_summary@, text_views(evidence@)),
    {
        let lines = join_texts(evidence.as_slice(), "\n");
        assert(text_views(evidence@) =~= Seq::new(evidence@.len(), |i: int| evidence@[i]@));
        let prompt = cat4(
            "You are an impartial adjudicator. Given the dispute and evidence, answer with exactly one word: INITIATOR, AUDITOR, or UNCERTAIN.\n\nDispute: ",
            dispute_summary,
            "\n\nEvidence:\n",
            lines.as_str(),
        );
        self.args(seed, 8, prompt)
    }

    /// The answer in what the program put out.
    pub fn answer(success: bool, output: &str) -> (r: Option<String>)
        ensures
            r.deep_view() == answer_of(success, output@),
    {
        if !success {
            return None;
        }
        let text = trim_text(output);
        if chars_of(text.as_str()).len() == 0 {
            return None;
        }
        Some(r1_strip(text.as_str()).0)
    }

    /// The summary: the model's, or else the deterministic one; and whether the
    /// model failed.
    pub fn skeleton_from(answer: Option<String>, text: &str, max_tokens: usize) -> (r: (String, bool))
        ensures
            r.1 == answer is None,
            r.0@ == match answer {
                Some(s) => s@,
                None => DeterministicBackend.skeleton_of(text@, max_tokens as nat),
            },
    {
        match answer {
            Some(s) => (s, false),
            None => (DeterministicBackend.skeleton(text, max_tokens), true),
        }
    }

    /// The verdict that the model's reply names, or else the deterministic one;
    /// and whether the model failed to name one.
    pub fn verdict_from(
        answer: Option<String>,
        seed: u64,
        dispute_summary: &str,
        evidence: &Vec<String>,
    ) -> (r: (Verdict, bool))
        ensures
            ({
                let named = match answer {
                    Some(s) => named_verdict(s@),
                    None => None,
                };
                &&& r.1 == named is None
                &&& r.0 == match named {
                    Some(v) => v,
                    None => tally(seed, dispute_summary@, text_views(evidence@)),
                }
            }),
    {
        if let Some(s) = answer {
            if let Some(v) = verdict_in(s.as_str()) {
                return (v, false);
            }
        }
        (DeterministicBackend.adjudicate(seed, dispute_summary, evidence), true)
    }
}

/// The verdict that a model's answer names.
pub fn verdict_in(answer: &str) -> (r: Option<Verdict>)
    ensures
        r == named_verdict(answer@),
{
    let up = upper_ascii(answer);
    if str_holds(up.as_str(), "INITIATOR") {
        Some(Verdict::InitiatorCorrect)
    } else if str_holds(up.as_str(), "AUDITOR") {
        Some(Verdict::AuditorCorrect)
    } else if str_holds(up.as_str(), "UNCERTAIN") {
        Some(Verdict::Uncertain)
    } else {
        None
    }
}

fn upper_ascii(s: &str) -> (r: String)
    ensures
        r@ == s@.map_values(|c: char| ascii_upper(c)),
{
    let chars = chars_of(s);
    let mut out: Vec<char> = Vec::new();
    let mut i: usize = 0;
    while i < chars.len()
        invariant
            i <= chars@.len(),
            out@ == chars@.take(i as int).map_values(|c: char| ascii_upper(c)),
        decreases chars.len() - i,
    {
        let c: char = chars[i];
        let l: char = if 'a' <= c && c <= 'z' { (c as u8 - 32) as char } else { c };
        out.push(l);
        i += 1;
        assert(chars@.take(i as int) =~= chars@.take(i - 1).push(c));
        assert(out@ =~= chars@.take(i as int).map_values(|c: char| ascii_upper(c)));
    }
    assert(chars@.take(chars@.len() as int) =~= chars@);
    string_of(out.as_slice())
}

/// What an external model was asked, by the arguments of its program, and what it
/// answered, if it did.
#[derive(Debug)]
pub struct Exchange {
    pub asked: Vec<String>,
    pub answer: Option<String>,
}

/// What a curator of a node works with: the deterministic backend, or an external
/// model. The model speaks through the last exchange with it, which settles the
/// question that was asked and no other.
#[derive(Debug)]
pub struct Worker {
    pub model: Option<ExternalGgufBackend>,
    pub heard: Option<Exchange>,
}

fn same_texts(a: &Vec<String>, b: &Vec<String>) -> (r: bool)
    ensures
        r == (text_views(a@) == text_views(b@)),
{
    let ghost (x, y) = (text_views(a@), text_views(b@));
    assert(x.len() == a@.len() && y.len() == b@.len());
    if a.len() != b.len() {
        return false;
    }
    let mut i: usize = 0;
    while i < a.len()
        invariant
            i <= a@.len() == b@.len(),
            x == text_views(a@),
            y == text_views(b@),
            forall|j: int| 0 <= j < i ==> x[j] == y[j],
        decreases a.len() - i,
    {
        assert(x[i as int] == a@[i as int]@ && y[i as int] == b@[i as int]@);
        if !str_eq(a[i].as_str(), b[i].as_str()) {
            return false;
        }
        i += 1;
    }
    assert(x =~= y);
    true
}

impl Worker {
    /// What the model answered to a question: nothing where it was not asked that.
    pub open spec fn answer_to(&self, asked: Seq<Seq<char>>) -> Option<Seq<char>> {
        match self.heard {
            Some(e) => if text_views(e.asked@) == asked {
                e.answer.deep_view()
            } else {
                None
            },
            None => None,
        }
    }

    pub fn new(model: Option<ExternalGgufBackend>) -> (r: Self)
        ensures
            r.model == model,
            r.heard is None,
    {
        Worker { model, heard: None }
    }

    fn answered(&self, asked: &Vec<String>) -> (r: Option<String>)
        ensures
            r.deep_view() == self.answer_to(text_views(asked@)),
    {
        match &self.heard {
            Some(e) => {
                if same_texts(&e.asked, asked) {
                    match &e.answer {
                        Some(s) => Some(s.as_str().to_string()),
                        None => None,
                    }
                } else {
                    None
                }
            },
            None => None,
        }
    }
}

impl CuratorBackend for Worker {
    open spec fn skeleton_of(&self, text: Seq<char>, max_tokens: nat) -> Seq<char> {
        let said = match self.model {
            Some(m) => if max_tokens + 16 <= usize::MAX {
                self.answer_to(m.asks_summary(text, max_tokens))
            } else {
                None
            },
            None => None,
        };
        match said {
            Some(s) => s,
            None => DeterministicBackend.skeleton_of(text, max_tokens),
        }
    }

    open spec fn verdict_of(
        &self,
        seed: u64,
        dispute: Seq<char>,
        evidence: Seq<Seq<char>>,
    ) -> Verdict {
        let said = match self.model {
            Some(m) => match self.answer_to(m.asks_verdict(seed, dispute, evidence)) {
                Some(s) => named_verdict(s),
                None => None,
            },
            None => None,
        };
        match said {
            Some(v) => v,
            None => tally(seed, dispute, evidence),
        }
    }

    open spec fn name(&self) -> Seq<char> {
        match self.model {
            Some(m) => "gguf."@ + m.model_name@,
            None => "deterministic.v1"@,
        }
    }

    fn backend_id(&self) -> (r: String) {
        match &self.model {
            Some(m) => m.backend_id(),
            None => DeterministicBackend.backend_id(),
        }
    }

    fn skeleton(&self, text: &str, max_tokens: usize) -> (r: String) {
        let said = match &self.model {
            Some(m) => {
                if max_tokens <= usize::MAX - 16 {
                    self.answered(&m.skeleton_args(text, max_tokens))
                } else {
                    None
                }
            },
            None => None,
        };
        ExternalGgufBackend::skeleton_from(said, text, max_tokens).0
    }

    fn adjudicate(&self, seed: u64, dispute_summary: &str, evidence: &Vec<String>) -> (r: Verdict) {
        let said = match &self.model {
            Some(m) => self.answered(&m.adjudicate_args(seed, dispute_summary, evidence)),
            None => None,
        };
        ExternalGgufBackend::verdict_from(said, seed, dispute_summary, evidence).0
    }
}

/// A curator whose model gave no answer to a question works on as with the
/// deterministic backend; what the model answered to another question plays no
/// part.
pub proof fn lemma_worker_falls_back(
    w: Worker,
    text: Seq<char>,
    max_tokens: nat,
    seed: u64,
    dispute: Seq<char>,
    evidence: Seq<Seq<char>>,
)
    ensures
        w.model is None || w.answer_to(w.model->0.asks_summary(text, max_tokens)) is None
            ==> w.skeleton_of(text, max_tokens) == DeterministicBackend.skeleton_of(
            text,
            max_tokens,
        ),
        w.model is None || w.answer_to(w.model->0.asks_verdict(seed, dispute, evidence)) is None
            ==> w.verdict_of(seed, dispute, evidence) == DeterministicBackend.verdict_of(
            seed,
            dispute,
            evidence,
        ),
{
}

} // verus!
