use vstd::prelude::*;

use crate::card::Card;
use crate::card::value::Value;
use crate::card::value::lemma_rank_injective;
use crate::hand::hand_type::{HandKind, HandType};
use crate::hand::sorting::{
    lemma_rearranged_tally, lemma_sorted_descending, lemma_sorted_len, lemma_sorted_members,
    lemma_sorted_tally, lemma_tally_all, lemma_tally_zero, rank_run, ranks_down_from,
    sorted_high_to_low, tally,
};

verus! {

/// How many cards of `s` have the value `v`.
pub open spec fn count(s: Seq<Card>, v: Value) -> nat {
    tally(s, |c: Card| c.value == v)
}

/// The values of the cards of `s`, in order.
pub open spec fn values(s: Seq<Card>) -> Seq<Value> {
    s.map_values(|c: Card| c.value)
}

/// The order in which the values are looked at when pairs are sought: from
/// the ace down to the two.
pub open spec fn walk_order() -> Seq<Value> {
    seq![
        Value::Ace,
        Value::King,
        Value::Queen,
        Value::Jack,
        Value::Ten,
        Value::Nine,
        Value::Eight,
        Value::Seven,
        Value::Six,
        Value::Five,
        Value::Four,
        Value::Three,
        Value::Two,
    ]
}

/// The first position `k`, from `from` on, in the walk order whose value
/// occurs exactly `n` times in `s`.
pub open spec fn first_count_from(s: Seq<Card>, n: nat, from: int) -> Option<int>
    decreases 13 - from,
{
    if from < 0 || from >= 13 {
        None
    } else if count(s, walk_order()[from]) == n {
        Some(from)
    } else {
        first_count_from(s, n, from + 1)
    }
}

/// The first position, from `from` on, whose value makes a full house or a
/// second pair with the pair at position `key`: a value that occurs three
/// times, or another value that occurs twice.
pub open spec fn partner_from(s: Seq<Card>, key: int, from: int) -> Option<int>
    decreases 13 - from,
{
    if from < 0 || from >= 13 {
        None
    } else if count(s, walk_order()[from]) == 3 || (count(s, walk_order()[from]) == 2 && from
        != key) {
        Some(from)
    } else {
        partner_from(s, key, from + 1)
    }
}

/// The values that occur in `s`, other than the one at position `key`, in
/// the walk order from position `from` on.
pub open spec fn others_from(s: Seq<Card>, key: int, from: int) -> Seq<Value>
    decreases 13 - from,
{
    if from < 0 || from >= 13 {
        Seq::empty()
    } else {
        let rest = others_from(s, key, from + 1);
        if count(s, walk_order()[from]) > 0 && from != key {
            seq![walk_order()[from]] + rest
        } else {
            rest
        }
    }
}

/// The category that the search for repeated values gives, going through the
/// values in the walk order from position `k` on: the first value that
/// occurs four times (with a single card beside it), three times or twice
/// decides, together with the first value of the count it asks for.
pub open spec fn pairs_from(s: Seq<Card>, k: int) -> HandKind
    decreases 13 - k,
{
    if k < 0 || k >= 13 {
        HandKind::HighCard { cards: values(s) }
    } else {
        let key = walk_order()[k];
        let n = count(s, key);
        if n == 4 && first_count_from(s, 1, 0) is Some {
            HandKind::FourKind {
                kind_value: key,
                kicker: walk_order()[first_count_from(s, 1, 0).unwrap()],
            }
        } else if n == 3 {
            match first_count_from(s, 2, 0) {
                Some(j) => HandKind::FullHouse { three_value: key, two_value: walk_order()[j] },
                None => HandKind::ThreeKind { three_value: key, other_cards: others_from(s, k, 0) },
            }
        } else if n == 2 {
            match partner_from(s, k, 0) {
                Some(j) => if count(s, walk_order()[j]) == 3 {
                    HandKind::FullHouse { three_value: walk_order()[j], two_value: key }
                } else {
                    HandKind::TwoPair {
                        pair_one: key,
                        pair_two: walk_order()[j],
                        kicker: walk_order()[first_count_from(s, 1, 0).unwrap()],
                    }
                },
                None => HandKind::Pair { pair: key, other_cards: others_from(s, k, 0) },
            }
        } else {
            pairs_from(s, k + 1)
        }
    }
}

/// Whether the search of `pairs_from` ends on two pairs with no single card
/// left for the kicker.
pub open spec fn kicker_missing_from(s: Seq<Card>, k: int) -> bool
    decreases 13 - k,
{
    if k < 0 || k >= 13 {
        false
    } else {
        let n = count(s, walk_order()[k]);
        if n == 4 && first_count_from(s, 1, 0) is Some {
            false
        } else if n == 3 {
            false
        } else if n == 2 {
            match partner_from(s, k, 0) {
                Some(j) => count(s, walk_order()[j]) != 3 && first_count_from(s, 1, 0) is None,
                None => false,
            }
        } else {
            kicker_missing_from(s, k + 1)
        }
    }
}

/// The category of `s` as the search for repeated values finds it.
pub open spec fn pairs_kind(s: Seq<Card>) -> HandKind {
    pairs_from(s, 0)
}

/// Whether all the cards of a non-empty `s` share the suit of the first.
pub open spec fn all_same_suit(s: Seq<Card>) -> bool {
    s.len() > 0 && forall|i: int| 0 <= i < s.len() ==> #[trigger] s[i].suit == s[0].suit
}

/// Whether `s` holds an ace.
pub open spec fn has_ace(s: Seq<Card>) -> bool {
    exists|i: int| 0 <= i < s.len() && #[trigger] s[i].value == Value::Ace
}

/// Whether values sorted from the highest down make a straight: each one
/// step below the one before it; when an ace is followed by a five, the
/// steps are counted from the five on, so that the ace plays low.
pub open spec fn straight_run(v: Seq<Value>) -> bool {
    if v[0].rank() == 14 && v[1].rank() == 5 {
        forall|i: int| 1 <= i < v.len() - 1 ==> #[trigger] v[i].rank() == v[i + 1].rank() + 1
    } else {
        forall|i: int| 0 <= i < v.len() - 1 ==> #[trigger] v[i].rank() == v[i + 1].rank() + 1
    }
}

/// The hand as classification leaves it: sorted twice, highest value first,
/// cards of equal value in their order in the hand.
#[verifier::opaque]
pub open spec fn ranked(s: Seq<Card>) -> Seq<Card> {
    sorted_high_to_low(sorted_high_to_low(s))
}

/// The category of a hand: a flush is all one suit, a straight a run of
/// values; a flush that is a straight is a royal flush when an ace leads it
/// and plays high (not followed by a five), else a straight flush whose
/// kicker is its first value (the ace, for a straight from the ace down to
/// the five); other hands are classified by their repeated values.
#[verifier::opaque]
pub open spec fn classify(s: Seq<Card>) -> HandKind {
    let t = ranked(s);
    let vals = values(t);
    if all_same_suit(s) {
        if straight_run(vals) {
            if vals[0] == Value::Ace && vals[1].rank() != 5 {
                HandKind::RoyalFlush
            } else {
                HandKind::StraightFlush { kicker: vals[0] }
            }
        } else {
            HandKind::Flush { cards: vals }
        }
    } else if straight_run(vals) {
        HandKind::Straight { kicker: vals[0] }
    } else {
        pairs_kind(t)
    }
}

/// The hands that can be classified: not empty, at least two cards when an
/// ace is among them, and a kicker for two pairs when the classification
/// comes to the search for repeated values.
#[verifier::opaque]
pub open spec fn classifiable(s: Seq<Card>) -> bool {
    &&& s.len() >= 1
    &&& has_ace(s) ==> s.len() >= 2
    &&& (!all_same_suit(s) && !straight_run(values(ranked(s)))) ==> !kicker_missing_from(
        ranked(s),
        0,
    )
}


/// The values in the walk order: from the ace down to the two.
pub fn walk_values() -> (order: Vec<Value>)
    ensures
        order@ == walk_order(),
{
    let order = vec![
        Value::Ace,
        Value::King,
        Value::Queen,
        Value::Jack,
        Value::Ten,
        Value::Nine,
        Value::Eight,
        Value::Seven,
        Value::Six,
        Value::Five,
        Value::Four,
        Value::Three,
        Value::Two,
    ];
    assert(order@ =~= walk_order());
    order
}

/// How many cards of `cards` have the value `v`.
pub fn count_value(cards: &Vec<Card>, v: Value) -> (n: usize)
    ensures
        n == count(cards@, v),
{
    let ghost s = cards@;
    let mut n: usize = 0;
    let mut i: usize = 0;
    assert(s.take(0) =~= Seq::<Card>::empty());
    while i < cards.len()
        invariant
            i <= cards.len(),
            s == cards@,
            n <= i,
            n == count(s.take(i as int), v),
        decreases cards.len() - i,
    {
        assert(s.take(i + 1).drop_last() =~= s.take(i as int));
        assert(s.take(i + 1).last() == cards[i as int]);
        if cards[i].value == v {
            n = n + 1;
        }
        i = i + 1;
    }
    assert(s.take(i as int) =~= s);
    n
}

/// For each value of the walk order, how many cards of `cards` have it.
pub fn value_counts(cards: &Vec<Card>, order: &Vec<Value>) -> (counts: Vec<usize>)
    requires
        order@ == walk_order(),
    ensures
        counts@.len() == 13,
        forall|k: int| 0 <= k < 13 ==> #[trigger] counts@[k] == count(cards@, walk_order()[k]),
{
    let mut counts: Vec<usize> = Vec::new();
    let mut k: usize = 0;
    while k < 13
        invariant
            k <= 13,
            order@ == walk_order(),
            counts@.len() == k,
            forall|m: int| 0 <= m < k ==> #[trigger] counts@[m] == count(cards@, walk_order()[m]),
        decreases 13 - k,
    {
        let n = count_value(cards, order[k]);
        counts.push(n);
        k = k + 1;
    }
    counts
}

/// The first position whose value occurs exactly `n` times.
pub fn find_count(counts: &Vec<usize>, n: usize, Ghost(s): Ghost<Seq<Card>>) -> (found: Option<usize>)
    requires
        counts@.len() == 13,
        forall|k: int| 0 <= k < 13 ==> #[trigger] counts@[k] == count(s, walk_order()[k]),
    ensures
        match found {
            Some(j) => j < 13 && first_count_from(s, n as nat, 0) == Some(j as int),
            None => first_count_from(s, n as nat, 0) is None,
        },
{
    let mut j: usize = 0;
    while j < 13
        invariant
            j <= 13,
            counts@.len() == 13,
            forall|k: int| 0 <= k < 13 ==> #[trigger] counts@[k] == count(s, walk_order()[k]),
            first_count_from(s, n as nat, 0) == first_count_from(s, n as nat, j as int),
        decreases 13 - j,
    {
        if counts[j] == n {
            return Some(j);
        }
        j = j + 1;
    }
    None
}

/// The first position whose value makes a full house or a second pair with
/// the pair at position `key`.
pub fn find_partner(counts: &Vec<usize>, key: usize, Ghost(s): Ghost<Seq<Card>>) -> (found: Option<usize>)
    requires
        counts@.len() == 13,
        forall|k: int| 0 <= k < 13 ==> #[trigger] counts@[k] == count(s, walk_order()[k]),
    ensures
        match found {
            Some(j) => j < 13 && partner_from(s, key as int, 0) == Some(j as int),
            None => partner_from(s, key as int, 0) is None,
        },
{
    let mut j: usize = 0;
    while j < 13
        invariant
            j <= 13,
            counts@.len() == 13,
            forall|k: int| 0 <= k < 13 ==> #[trigger] counts@[k] == count(s, walk_order()[k]),
            partner_from(s, key as int, 0) == partner_from(s, key as int, j as int),
        decreases 13 - j,
    {
        if counts[j] == 3 || (counts[j] == 2 && j != key) {
            return Some(j);
        }
        j = j + 1;
    }
    None
}

/// The values that occur, other than the one at position `key`, in the walk
/// order.
pub fn other_values(counts: &Vec<usize>, order: &Vec<Value>, key: usize, Ghost(s): Ghost<Seq<Card>>) -> (others: Vec<Value>)
    requires
        order@ == walk_order(),
        counts@.len() == 13,
        forall|k: int| 0 <= k < 13 ==> #[trigger] counts@[k] == count(s, walk_order()[k]),
    ensures
        others@ == others_from(s, key as int, 0),
{
    let mut out: Vec<Value> = Vec::new();
    let mut j: usize = 0;
    while j < 13
        invariant
            j <= 13,
            order@ == walk_order(),
            counts@.len() == 13,
            forall|k: int| 0 <= k < 13 ==> #[trigger] counts@[k] == count(s, walk_order()[k]),
            out@ + others_from(s, key as int, j as int) == others_from(s, key as int, 0),
        decreases 13 - j,
    {
        let ghost before = out@;
        if counts[j] > 0 && j != key {
            out.push(order[j]);
            assert(out@ + others_from(s, key as int, j + 1) =~= before + others_from(
                s,
                key as int,
                j as int,
            ));
        }
        j = j + 1;
    }
    assert(out@ + others_from(s, key as int, j as int) =~= out@);
    out
}

/// The values of the cards, in order.
pub fn card_values(cards: &Vec<Card>) -> (vals: Vec<Value>)
    ensures
        vals@ == values(cards@),
{
    let mut out: Vec<Value> = Vec::new();
    let mut i: usize = 0;
    while i < cards.len()
        invariant
            i <= cards.len(),
            out@ =~= values(cards@.take(i as int)),
        decreases cards.len() - i,
    {
        out.push(cards[i].value);
        i = i + 1;
    }
    assert(cards@.take(i as int) =~= cards@);
    out
}


/// A classifiable hand has a card.
pub proof fn lemma_classifiable_nonempty(s: Seq<Card>)
    requires
        classifiable(s),
    ensures
        s.len() >= 1,
{
    reveal(classifiable);
}

/// Sorting changes neither whether the hand is all one suit nor whether it
/// holds an ace.
pub proof fn lemma_sorted_suits_and_aces(s: Seq<Card>)
    ensures
        all_same_suit(sorted_high_to_low(s)) == all_same_suit(s),
        has_ace(sorted_high_to_low(s)) == has_ace(s),
        sorted_high_to_low(s).len() == s.len(),
{
    let t = sorted_high_to_low(s);
    lemma_sorted_len(s);
    lemma_sorted_members(s);
    if all_same_suit(s) {
        assert forall|j: int| 0 <= j < t.len() implies #[trigger] t[j].suit == t[0].suit by {
            let i = choose|i: int| 0 <= i < s.len() && s[i] == t[j];
            let i0 = choose|i: int| 0 <= i < s.len() && s[i] == t[0];
            assert(s[i].suit == s[0].suit);
            assert(s[i0].suit == s[0].suit);
        }
    }
    if all_same_suit(t) {
        assert forall|i: int| 0 <= i < s.len() implies #[trigger] s[i].suit == s[0].suit by {
            let j = choose|j: int| 0 <= j < t.len() && t[j] == s[i];
            let j0 = choose|j: int| 0 <= j < t.len() && t[j] == s[0];
            assert(t[j].suit == t[0].suit);
            assert(t[j0].suit == t[0].suit);
        }
    }
    if has_ace(s) {
        let i = choose|i: int| 0 <= i < s.len() && #[trigger] s[i].value == Value::Ace;
        let j = choose|j: int| 0 <= j < t.len() && t[j] == s[i];
        assert(t[j].value == Value::Ace);
    }
    if has_ace(t) {
        let j = choose|j: int| 0 <= j < t.len() && #[trigger] t[j].value == Value::Ace;
        let i = choose|i: int| 0 <= i < s.len() && s[i] == t[j];
        assert(s[i].value == Value::Ace);
    }
}

/// A sorted hand starts with an ace exactly when it holds one.
pub proof fn lemma_sorted_ace_first(s: Seq<Card>)
    requires
        s.len() > 0,
    ensures
        (sorted_high_to_low(s)[0].value == Value::Ace) == has_ace(s),
{
    let t = sorted_high_to_low(s);
    lemma_sorted_suits_and_aces(s);
    lemma_sorted_descending(s);
    if has_ace(t) {
        let j = choose|j: int| 0 <= j < t.len() && #[trigger] t[j].value == Value::Ace;
        assert(t[0].value.rank() >= t[j].value.rank());
        lemma_rank_injective(t[0].value, Value::Ace);
    }
}

/// Sorting a sorted hand again keeps the value of its first card.
pub proof fn lemma_resorted_top(s: Seq<Card>)
    requires
        s.len() > 0,
    ensures
        ranked(s).len() == s.len(),
        ranked(s)[0].value == sorted_high_to_low(s)[0].value,
{
    reveal(ranked);
    let once = sorted_high_to_low(s);
    let twice = sorted_high_to_low(once);
    lemma_sorted_len(s);
    lemma_sorted_len(once);
    lemma_sorted_descending(s);
    lemma_sorted_descending(once);
    lemma_sorted_members(once);
    let i = choose|i: int| 0 <= i < once.len() && once[i] == twice[0];
    let j = choose|j: int| 0 <= j < twice.len() && twice[j] == once[0];
    assert(once[0].value.rank() >= once[i].value.rank());
    assert(twice[0].value.rank() >= twice[j].value.rank());
    lemma_rank_injective(twice[0].value, once[0].value);
}

/// Whether sorted cards make a straight (see `straight_run`).
pub fn straight_check(cards: &Vec<Card>) -> (straight: bool)
    requires
        cards@.len() >= 1,
        cards@[0].value.rank() == 14 ==> cards@.len() >= 2,
        forall|i: int, j: int|
            0 <= i <= j < cards@.len() ==> (#[trigger] cards@[i]).value.rank() >= (#[trigger] cards@[j]).value.rank(),
    ensures
        straight == straight_run(values(cards@)),
{
    let ghost v = values(cards@);
    let n = cards.len();
    assert forall|k: int| 0 <= k < n - 1 implies #[trigger] v[k].rank() >= v[k + 1].rank() by {
        assert(cards@[k].value.rank() >= cards@[k + 1].value.rank());
    }
    let start: usize = if cards[0].numeric_value() == 14 && cards[1].numeric_value() == 5 {
        1
    } else {
        0
    };
    assert(start == 1 <==> (v[0].rank() == 14 && v[1].rank() == 5));
    let mut i: usize = start;
    while i < n - 1
        invariant
            start <= i,
            start <= 1,
            start == 1 <==> (v[0].rank() == 14 && v[1].rank() == 5),
            i <= n - 1 || i == start,
            n == cards@.len(),
            n >= 1,
            v == values(cards@),
            forall|k: int| 0 <= k < n - 1 ==> #[trigger] v[k].rank() >= v[k + 1].rank(),
            forall|k: int| start <= k < i ==> #[trigger] v[k].rank() == v[k + 1].rank() + 1,
        decreases n - i,
    {
        assert(v[i as int] == cards@[i as int].value);
        assert(v[i + 1] == cards@[i + 1].value);
        if cards[i].numeric_value() - cards[i + 1].numeric_value() != 1 {
            assert(!straight_run(v));
            return false;
        }
        i = i + 1;
    }
    true
}

/// The category of the cards as the search for repeated values finds it
/// (see `pairs_from`).
pub fn classify_by_pairs(cards: &Vec<Card>) -> (kind: HandType)
    requires
        !kicker_missing_from(cards@, 0),
    ensures
        kind@ == pairs_kind(cards@),
{
    let ghost s = cards@;
    let order = walk_values();
    let counts = value_counts(cards, &order);
    let mut k: usize = 0;
    while k < 13
        invariant
            k <= 13,
            s == cards@,
            order@ == walk_order(),
            counts@.len() == 13,
            forall|m: int| 0 <= m < 13 ==> #[trigger] counts@[m] == count(s, walk_order()[m]),
            pairs_from(s, 0) == pairs_from(s, k as int),
            !kicker_missing_from(s, k as int),
        decreases 13 - k,
    {
        let key = order[k];
        let n = counts[k];
        if n == 4 {
            if let Some(j) = find_count(&counts, 1, Ghost(s)) {
                return HandType::FourKind { kind_value: key, kicker: order[j] };
            }
        }
        if n == 3 {
            match find_count(&counts, 2, Ghost(s)) {
                Some(j) => {
                    return HandType::FullHouse { three_value: key, two_value: order[j] };
                },
                None => {
                    let others = other_values(&counts, &order, k, Ghost(s));
                    return HandType::ThreeKind { three_value: key, other_cards: others };
                },
            }
        }
        if n == 2 {
            match find_partner(&counts, k, Ghost(s)) {
                Some(j) => {
                    if counts[j] == 3 {
                        return HandType::FullHouse { three_value: order[j], two_value: key };
                    } else {
                        let m = find_count(&counts, 1, Ghost(s)).unwrap();
                        return HandType::TwoPair {
                            pair_one: key,
                            pair_two: order[j],
                            kicker: order[m],
                        };
                    }
                },
                None => {
                    let others = other_values(&counts, &order, k, Ghost(s));
                    return HandType::Pair { pair: key, other_cards: others };
                },
            }
        }
        k = k + 1;
    }
    let vals = card_values(cards);
    HandType::HighCard { cards: vals }
}

/// The value whose numeric value is `r`, for `r` from 2 to 14.
pub open spec fn value_of_rank(r: int) -> Value {
    if r == 14 {
        Value::Ace
    } else if r == 13 {
        Value::King
    } else if r == 12 {
        Value::Queen
    } else if r == 11 {
        Value::Jack
    } else if r == 10 {
        Value::Ten
    } else if r == 9 {
        Value::Nine
    } else if r == 8 {
        Value::Eight
    } else if r == 7 {
        Value::Seven
    } else if r == 6 {
        Value::Six
    } else if r == 5 {
        Value::Five
    } else if r == 4 {
        Value::Four
    } else if r == 3 {
        Value::Three
    } else {
        Value::Two
    }
}

/// The values of a run of rank `r`: the value of that rank, once for each
/// card of that rank.
proof fn lemma_rank_run_values(x: Seq<Card>, r: int)
    ensures
        values(rank_run(x, r)) =~= Seq::new(
            tally(x, |c: Card| c.value.rank() == r),
            |i: int| value_of_rank(r),
        ),
    decreases x.len(),
{
    if x.len() > 0 {
        lemma_rank_run_values(x.drop_last(), r);
        let rest = rank_run(x.drop_last(), r);
        if x.last().value.rank() == r {
            assert(value_of_rank(r) == x.last().value);
            assert(values(seq![x.last()] + rest) =~= seq![x.last().value] + values(rest));
        }
    }
}

/// The values of the sorted cards depend only on how many cards of each
/// rank there are.
proof fn lemma_ranks_down_values(x: Seq<Card>, y: Seq<Card>, r: int)
    requires
        forall|p: spec_fn(Card) -> bool| #[trigger] tally(x, p) == tally(y, p),
    ensures
        values(ranks_down_from(x, r)) == values(ranks_down_from(y, r)),
    decreases r,
{
    if r >= 2 {
        lemma_ranks_down_values(x, y, r - 1);
        lemma_rank_run_values(x, r);
        lemma_rank_run_values(y, r);
        let f = |c: Card| c.value.rank() == r;
        assert(tally(x, f) == tally(y, f));
        let a = rank_run(x, r);
        let b = ranks_down_from(x, r - 1);
        let a2 = rank_run(y, r);
        let b2 = ranks_down_from(y, r - 1);
        assert(values(a + b) =~= values(a) + values(b));
        assert(values(a2 + b2) =~= values(a2) + values(b2));
    }
}

/// Cards that count alike hold the same cards, and as many.
proof fn lemma_same_tallies_members(x: Seq<Card>, y: Seq<Card>)
    requires
        forall|p: spec_fn(Card) -> bool| #[trigger] tally(x, p) == tally(y, p),
    ensures
        x.len() == y.len(),
        forall|i: int| 0 <= i < x.len() ==> exists|j: int| 0 <= j < y.len() && y[j] == #[trigger] x[i],
        forall|j: int| 0 <= j < y.len() ==> exists|i: int| 0 <= i < x.len() && x[i] == #[trigger] y[j],
{
    let all = |c: Card| true;
    assert(tally(x, all) == tally(y, all));
    lemma_tally_all(x);
    lemma_tally_all(y);
    assert forall|i: int| 0 <= i < x.len() implies exists|j: int|
        0 <= j < y.len() && y[j] == #[trigger] x[i] by {
        let e = x[i];
        let p = |c: Card| c == e;
        assert(tally(x, p) == tally(y, p));
        lemma_tally_zero(x, p);
        lemma_tally_zero(y, p);
    }
    assert forall|j: int| 0 <= j < y.len() implies exists|i: int|
        0 <= i < x.len() && x[i] == #[trigger] y[j] by {
        let e = y[j];
        let p = |c: Card| c == e;
        assert(tally(x, p) == tally(y, p));
        lemma_tally_zero(x, p);
        lemma_tally_zero(y, p);
    }
}

/// Cards that count alike agree on being all one suit and on holding an ace.
proof fn lemma_same_tallies_suits_and_aces(x: Seq<Card>, y: Seq<Card>)
    requires
        forall|p: spec_fn(Card) -> bool| #[trigger] tally(x, p) == tally(y, p),
    ensures
        all_same_suit(x) == all_same_suit(y),
        has_ace(x) == has_ace(y),
        x.len() == y.len(),
{
    lemma_same_tallies_members(x, y);
    if all_same_suit(x) {
        assert forall|j: int| 0 <= j < y.len() implies #[trigger] y[j].suit == y[0].suit by {
            let i = choose|i: int| 0 <= i < x.len() && x[i] == y[j];
            let i0 = choose|i: int| 0 <= i < x.len() && x[i] == y[0];
            assert(x[i].suit == x[0].suit);
            assert(x[i0].suit == x[0].suit);
        }
    }
    if all_same_suit(y) {
        assert forall|i: int| 0 <= i < x.len() implies #[trigger] x[i].suit == x[0].suit by {
            let j = choose|j: int| 0 <= j < y.len() && y[j] == x[i];
            let j0 = choose|j: int| 0 <= j < y.len() && y[j] == x[0];
            assert(y[j].suit == y[0].suit);
            assert(y[j0].suit == y[0].suit);
        }
    }
    if has_ace(x) {
        let i = choose|i: int| 0 <= i < x.len() && #[trigger] x[i].value == Value::Ace;
        let j = choose|j: int| 0 <= j < y.len() && y[j] == x[i];
        assert(y[j].value == Value::Ace);
    }
    if has_ace(y) {
        let j = choose|j: int| 0 <= j < y.len() && #[trigger] y[j].value == Value::Ace;
        let i = choose|i: int| 0 <= i < x.len() && x[i] == y[j];
        assert(x[i].value == Value::Ace);
    }
}

/// The search for repeated values depends only on how many cards of each
/// value there are, and on the values in order.
proof fn lemma_pairs_same_counts(s1: Seq<Card>, s2: Seq<Card>, k: int)
    requires
        forall|v: Value| #[trigger] count(s1, v) == count(s2, v),
        values(s1) == values(s2),
    ensures
        pairs_from(s1, k) == pairs_from(s2, k),
        kicker_missing_from(s1, k) == kicker_missing_from(s2, k),
    decreases 13 - k,
{
    lemma_first_count_same(s1, s2, 1, 0);
    lemma_first_count_same(s1, s2, 2, 0);
    if 0 <= k < 13 {
        lemma_partner_same(s1, s2, k, 0);
        lemma_others_same(s1, s2, k, 0);
        lemma_pairs_same_counts(s1, s2, k + 1);
        assert(count(s1, walk_order()[k]) == count(s2, walk_order()[k]));
        if let Some(j) = partner_from(s1, k, 0) {
            assert(count(s1, walk_order()[j]) == count(s2, walk_order()[j]));
        }
    }
}

proof fn lemma_first_count_same(s1: Seq<Card>, s2: Seq<Card>, n: nat, from: int)
    requires
        forall|v: Value| #[trigger] count(s1, v) == count(s2, v),
    ensures
        first_count_from(s1, n, from) == first_count_from(s2, n, from),
    decreases 13 - from,
{
    if 0 <= from < 13 {
        lemma_first_count_same(s1, s2, n, from + 1);
        assert(count(s1, walk_order()[from]) == count(s2, walk_order()[from]));
    }
}

proof fn lemma_partner_same(s1: Seq<Card>, s2: Seq<Card>, key: int, from: int)
    requires
        forall|v: Value| #[trigger] count(s1, v) == count(s2, v),
    ensures
        partner_from(s1, key, from) == partner_from(s2, key, from),
    decreases 13 - from,
{
    if 0 <= from < 13 {
        lemma_partner_same(s1, s2, key, from + 1);
        assert(count(s1, walk_order()[from]) == count(s2, walk_order()[from]));
    }
}

proof fn lemma_others_same(s1: Seq<Card>, s2: Seq<Card>, key: int, from: int)
    requires
        forall|v: Value| #[trigger] count(s1, v) == count(s2, v),
    ensures
        others_from(s1, key, from) == others_from(s2, key, from),
    decreases 13 - from,
{
    if 0 <= from < 13 {
        lemma_others_same(s1, s2, key, from + 1);
        assert(count(s1, walk_order()[from]) == count(s2, walk_order()[from]));
    }
}

/// The category of a hand does not depend on the order its cards come in:
/// two hands with the same cards are classified alike, and one can be
/// classified exactly when the other can.
pub proof fn lemma_classify_ignores_order(x: Seq<Card>, y: Seq<Card>)
    requires
        x.to_multiset() == y.to_multiset(),
    ensures
        classify(x) == classify(y),
        classifiable(x) == classifiable(y),
{
    reveal(classify);
    reveal(classifiable);
    reveal(ranked);
    let sx = sorted_high_to_low(x);
    let sy = sorted_high_to_low(y);
    let tx = sorted_high_to_low(sx);
    let ty = sorted_high_to_low(sy);
    assert forall|p: spec_fn(Card) -> bool| #[trigger] tally(x, p) == tally(y, p) by {
        lemma_rearranged_tally(x, y, p);
    }
    assert forall|p: spec_fn(Card) -> bool| #[trigger] tally(sx, p) == tally(sy, p) by {
        lemma_sorted_tally(x, p);
        lemma_sorted_tally(y, p);
    }
    assert forall|p: spec_fn(Card) -> bool| #[trigger] tally(tx, p) == tally(ty, p) by {
        lemma_sorted_tally(sx, p);
        lemma_sorted_tally(sy, p);
    }
    lemma_ranks_down_values(sx, sy, 14);
    lemma_same_tallies_suits_and_aces(x, y);
    assert forall|v: Value| #[trigger] count(tx, v) == count(ty, v) by {
        let f = |c: Card| c.value == v;
        assert(tally(tx, f) == tally(ty, f));
    }
    lemma_pairs_same_counts(tx, ty, 0);
}

} // verus!
