use vstd::prelude::*;

use crate::card::Card;

verus! {

/// A position as a mathematical integer.
pub open spec fn at(i: usize) -> int {
    i as int
}

/// A count as a mathematical integer.
pub open spec fn int_of(n: nat) -> int {
    n as int
}

/// The number of cards of `s` on which `p` holds.
pub open spec fn tally(s: Seq<Card>, p: spec_fn(Card) -> bool) -> nat
    decreases s.len(),
{
    if s.len() == 0 {
        0
    } else {
        tally(s.drop_last(), p) + if p(s.last()) {
            1nat
        } else {
            0nat
        }
    }
}

/// The cards of `s` whose value has rank `r`, the last of them first.
pub open spec fn rank_run(s: Seq<Card>, r: int) -> Seq<Card>
    decreases s.len(),
{
    if s.len() == 0 {
        Seq::empty()
    } else {
        let rest = rank_run(s.drop_last(), r);
        if s.last().value.rank() == r {
            seq![s.last()] + rest
        } else {
            rest
        }
    }
}

/// The cards of `s` whose rank lies between 2 and `r`, the highest rank first.
pub open spec fn ranks_down_from(s: Seq<Card>, r: int) -> Seq<Card>
    decreases r,
{
    if r < 2 {
        Seq::empty()
    } else {
        rank_run(s, r) + ranks_down_from(s, r - 1)
    }
}

/// `s` in the order that an ascending, stable sort by value followed by a
/// reversal gives it: highest value first, and cards of equal value in the
/// reverse of their order in `s`.
pub open spec fn sorted_high_to_low(s: Seq<Card>) -> Seq<Card> {
    ranks_down_from(s, 14)
}

/// Sorts the cards by value, highest first; cards of equal value come in the
/// reverse of their order in `cards`.
pub fn sort_high_to_low(cards: &Vec<Card>) -> (sorted: Vec<Card>)
    ensures
        sorted@ == sorted_high_to_low(cards@),
{
    let ghost s = cards@;
    let mut out: Vec<Card> = Vec::new();
    let mut r: u32 = 14;
    while r >= 2
        invariant
            1 <= r <= 14,
            s == cards@,
            out@ + ranks_down_from(s, r as int) == sorted_high_to_low(s),
        decreases r,
    {
        let mut j: usize = cards.len();
        assert(s.take(j as int) =~= s);
        assert(out@ + ranks_down_from(s, r as int) =~= out@ + rank_run(s, r as int)
            + ranks_down_from(s, r - 1));
        while j > 0
            invariant
                2 <= r <= 14,
                j <= cards.len(),
                s == cards@,
                out@ + rank_run(s.take(j as int), r as int) + ranks_down_from(s, r - 1)
                    == sorted_high_to_low(s),
            decreases j,
        {
            let c = cards[j - 1];
            let ghost before = out@;
            assert(s.take(j as int).drop_last() =~= s.take(j - 1));
            assert(s.take(j as int).last() == c);
            if c.value.numeric_value() == r {
                out.push(c);
                assert(out@ + rank_run(s.take(j - 1), r as int) =~= before + rank_run(
                    s.take(j as int),
                    r as int,
                ));
            }
            j = j - 1;
        }
        assert(rank_run(s.take(0), r as int) =~= Seq::<Card>::empty());
        assert(out@ + rank_run(s.take(0), r as int) =~= out@);
        r = r - 1;
    }
    assert(ranks_down_from(s, r as int) =~= Seq::<Card>::empty());
    assert(out@ =~= out@ + ranks_down_from(s, r as int));
    out
}


/// Counting over a concatenation adds the counts.
pub proof fn lemma_tally_concat(a: Seq<Card>, b: Seq<Card>, p: spec_fn(Card) -> bool)
    ensures
        tally(a + b, p) == tally(a, p) + tally(b, p),
    decreases b.len(),
{
    if b.len() == 0 {
        assert(a + b =~= a);
    } else {
        assert((a + b).drop_last() =~= a + b.drop_last());
        assert((a + b).last() == b.last());
        lemma_tally_concat(a, b.drop_last(), p);
    }
}

/// Counting two predicates that never hold together adds up to counting
/// either of them.
pub proof fn lemma_tally_disjoint(
    s: Seq<Card>,
    p: spec_fn(Card) -> bool,
    q: spec_fn(Card) -> bool,
)
    requires
        forall|c: Card| !(#[trigger] p(c) && q(c)),
    ensures
        tally(s, p) + tally(s, q) == tally(s, |c: Card| p(c) || q(c)),
    decreases s.len(),
{
    if s.len() > 0 {
        lemma_tally_disjoint(s.drop_last(), p, q);
    }
}

/// Counting depends on the predicate only through the cards it accepts.
pub proof fn lemma_tally_ext(s: Seq<Card>, p: spec_fn(Card) -> bool, q: spec_fn(Card) -> bool)
    requires
        forall|c: Card| #[trigger] p(c) == q(c),
    ensures
        tally(s, p) == tally(s, q),
{
    assert(p =~= q);
}

/// No card is counted exactly when the predicate fails on every card.
pub proof fn lemma_tally_zero(s: Seq<Card>, p: spec_fn(Card) -> bool)
    ensures
        (tally(s, p) == 0) <==> (forall|i: int| 0 <= i < s.len() ==> !p(#[trigger] s[i])),
    decreases s.len(),
{
    if s.len() > 0 {
        lemma_tally_zero(s.drop_last(), p);
        if tally(s, p) == 0 {
            assert forall|i: int| 0 <= i < s.len() implies !p(#[trigger] s[i]) by {
                if i < s.len() - 1 {
                    assert(s[i] == s.drop_last()[i]);
                }
            }
        }
        if forall|i: int| 0 <= i < s.len() ==> !p(#[trigger] s[i]) {
            assert forall|i: int| 0 <= i < s.drop_last().len() implies !p(
                #[trigger] s.drop_last()[i],
            ) by {
                assert(s.drop_last()[i] == s[i]);
            }
        }
    }
}

/// Counting every card gives the length.
pub proof fn lemma_tally_all(s: Seq<Card>)
    ensures
        tally(s, |c: Card| true) == s.len(),
    decreases s.len(),
{
    if s.len() > 0 {
        lemma_tally_all(s.drop_last());
    }
}

/// The run of rank `r` holds the cards of `s` of that rank.
pub proof fn lemma_tally_rank_run(s: Seq<Card>, r: int, p: spec_fn(Card) -> bool)
    ensures
        tally(rank_run(s, r), p) == tally(s, |c: Card| p(c) && c.value.rank() == r),
    decreases s.len(),
{
    if s.len() > 0 {
        let q = |c: Card| p(c) && c.value.rank() == r;
        lemma_tally_rank_run(s.drop_last(), r, p);
        let rest = rank_run(s.drop_last(), r);
        assert(tally(rest, p) == tally(s.drop_last(), q));
        assert(tally(s, q) == tally(s.drop_last(), q) + if q(s.last()) {
            1nat
        } else {
            0nat
        });
        if s.last().value.rank() == r {
            lemma_tally_concat(seq![s.last()], rest, p);
            assert(seq![s.last()].drop_last() =~= Seq::<Card>::empty());
            assert(tally(Seq::<Card>::empty(), p) == 0);
            assert(seq![s.last()].last() == s.last());
            assert(tally(seq![s.last()], p) == if p(s.last()) {
                1nat
            } else {
                0nat
            });
        }
    }
}

/// The cards of ranks `r` down to 2, counted.
pub proof fn lemma_tally_ranks_down_from(s: Seq<Card>, r: int, p: spec_fn(Card) -> bool)
    ensures
        tally(ranks_down_from(s, r), p) == tally(
            s,
            |c: Card| p(c) && 2 <= c.value.rank() <= r,
        ),
    decreases r,
{
    if r < 2 {
        lemma_tally_zero(s, |c: Card| p(c) && 2 <= c.value.rank() <= r);
    } else {
        lemma_tally_ranks_down_from(s, r - 1, p);
        lemma_tally_rank_run(s, r, p);
        lemma_tally_concat(rank_run(s, r), ranks_down_from(s, r - 1), p);
        let top = |c: Card| p(c) && c.value.rank() == r;
        let below = |c: Card| p(c) && 2 <= c.value.rank() <= r - 1;
        lemma_tally_disjoint(s, top, below);
        lemma_tally_ext(
            s,
            |c: Card| top(c) || below(c),
            |c: Card| p(c) && 2 <= c.value.rank() <= r,
        );
    }
}

/// Sorting keeps every count: the sorted hand is a rearrangement of the hand.
pub proof fn lemma_sorted_tally(s: Seq<Card>, p: spec_fn(Card) -> bool)
    ensures
        tally(sorted_high_to_low(s), p) == tally(s, p),
{
    lemma_tally_ranks_down_from(s, 14, p);
    lemma_tally_ext(s, |c: Card| p(c) && 2 <= c.value.rank() <= 14, p);
}

/// Sorting keeps the length.
pub proof fn lemma_sorted_len(s: Seq<Card>)
    ensures
        sorted_high_to_low(s).len() == s.len(),
{
    lemma_sorted_tally(s, |c: Card| true);
    lemma_tally_all(s);
    lemma_tally_all(sorted_high_to_low(s));
}

/// Every card of a run has the run's rank.
pub proof fn lemma_rank_run_ranks(s: Seq<Card>, r: int)
    ensures
        forall|i: int| 0 <= i < rank_run(s, r).len() ==> (#[trigger] rank_run(s, r)[i]).value.rank() == r,
    decreases s.len(),
{
    if s.len() > 0 {
        lemma_rank_run_ranks(s.drop_last(), r);
    }
}

/// The ranks of `ranks_down_from(s, r)` never rise and never exceed `r`.
pub proof fn lemma_ranks_down_from_sorted(s: Seq<Card>, r: int)
    ensures
        forall|i: int| 0 <= i < ranks_down_from(s, r).len() ==> (#[trigger] ranks_down_from(s, r)[i]).value.rank() <= r,
        forall|i: int, j: int|
            0 <= i <= j < ranks_down_from(s, r).len() ==> (#[trigger] ranks_down_from(s, r)[i]).value.rank()
                >= (#[trigger] ranks_down_from(s, r)[j]).value.rank(),
    decreases r,
{
    if r >= 2 {
        lemma_ranks_down_from_sorted(s, r - 1);
        lemma_rank_run_ranks(s, r);
        let a = rank_run(s, r);
        let b = ranks_down_from(s, r - 1);
        assert(ranks_down_from(s, r) == a + b);
        assert forall|i: int| 0 <= i < (a + b).len() implies (#[trigger] (a + b)[i]).value.rank() <= r by {
            if i >= a.len() {
                assert((a + b)[i] == b[i - a.len()]);
            }
        }
        assert forall|i: int, j: int|
            0 <= i <= j < (a + b).len() implies (#[trigger] (a + b)[i]).value.rank() >= (#[trigger] (a
            + b)[j]).value.rank() by {
            if j < a.len() {
            } else if i < a.len() {
                assert((a + b)[j] == b[j - a.len()]);
            } else {
                assert((a + b)[j] == b[j - a.len()]);
                assert((a + b)[i] == b[i - a.len()]);
            }
        }
    }
}

/// The sorted hand has its ranks from the highest down.
pub proof fn lemma_sorted_descending(s: Seq<Card>)
    ensures
        forall|i: int, j: int|
            0 <= i <= j < sorted_high_to_low(s).len() ==> (#[trigger] sorted_high_to_low(s)[i]).value.rank()
                >= (#[trigger] sorted_high_to_low(s)[j]).value.rank(),
{
    lemma_ranks_down_from_sorted(s, 14);
}


/// The sorted hand holds the cards of the hand, and the hand those of the
/// sorted hand.
pub proof fn lemma_sorted_members(s: Seq<Card>)
    ensures
        forall|j: int|
            0 <= j < sorted_high_to_low(s).len() ==> exists|i: int|
                0 <= i < s.len() && s[i] == #[trigger] sorted_high_to_low(s)[j],
        forall|i: int|
            0 <= i < s.len() ==> exists|j: int|
                0 <= j < sorted_high_to_low(s).len() && sorted_high_to_low(s)[j] == #[trigger] s[i],
{
    let t = sorted_high_to_low(s);
    assert forall|j: int| 0 <= j < t.len() implies exists|i: int|
        0 <= i < s.len() && s[i] == #[trigger] t[j] by {
        let x = t[j];
        let p = |c: Card| c == x;
        lemma_sorted_tally(s, p);
        lemma_tally_zero(t, p);
        lemma_tally_zero(s, p);
    }
    assert forall|i: int| 0 <= i < s.len() implies exists|j: int|
        0 <= j < t.len() && t[j] == #[trigger] s[i] by {
        let x = s[i];
        let p = |c: Card| c == x;
        lemma_sorted_tally(s, p);
        lemma_tally_zero(t, p);
        lemma_tally_zero(s, p);
    }
}

/// Removing a card takes it out of the count.
pub proof fn lemma_tally_remove(s: Seq<Card>, j: int, p: spec_fn(Card) -> bool)
    requires
        0 <= j < s.len(),
    ensures
        tally(s, p) == tally(s.remove(j), p) + if p(s[j]) {
            1nat
        } else {
            0nat
        },
{
    let a = s.take(j);
    let b = s.skip(j + 1);
    assert(s =~= a + (seq![s[j]] + b));
    assert(s.remove(j) =~= a + b);
    lemma_tally_concat(a, seq![s[j]] + b, p);
    lemma_tally_concat(seq![s[j]], b, p);
    lemma_tally_concat(a, b, p);
    assert(seq![s[j]].drop_last() =~= Seq::<Card>::empty());
    assert(tally(Seq::<Card>::empty(), p) == 0);
}

/// Two hands with the same cards, whatever their order, count alike.
pub proof fn lemma_rearranged_tally(x: Seq<Card>, y: Seq<Card>, p: spec_fn(Card) -> bool)
    requires
        x.to_multiset() == y.to_multiset(),
    ensures
        tally(x, p) == tally(y, p),
    decreases x.len(),
{
    broadcast use vstd::seq_lib::group_to_multiset_ensures;
    broadcast use vstd::multiset::group_multiset_axioms;

    if x.len() == 0 {
        assert(x.to_multiset().len() == 0);
        assert(y.to_multiset().len() == y.len());
        assert(y.len() == 0);
    } else {
        let e = x.last();
        let xs = x.drop_last();
        assert(xs.push(e) =~= x);
        assert(y.to_multiset().count(e) > 0);
        assert(y.contains(e));
        let j = choose|j: int| 0 <= j < y.len() && y[j] == e;
        let ys = y.remove(j);
        assert(ys.to_multiset() =~= xs.to_multiset());
        lemma_rearranged_tally(xs, ys, p);
        lemma_tally_remove(y, j, p);
    }
}

} // verus!
