use vstd::prelude::*;

use crate::card::Card;
use crate::card::value::Value;
use crate::hand::hand_type::HandKind;
use crate::hand::ranking::{
    all_same_suit, classifiable, classify, count, first_count_from, has_ace,
    kicker_missing_from, lemma_sorted_ace_first, lemma_sorted_suits_and_aces, others_from,
    pairs_from, partner_from, ranked, straight_run, values, walk_order,
};
use crate::hand::sorting::{lemma_sorted_tally, sorted_high_to_low};

verus! {

/// Whether the values from position `from` on each stand one below the
/// value before them.
pub open spec fn steps_down_by_one(v: Seq<Value>, from: int) -> bool {
    forall|i: int| from <= i < v.len() - 1 ==> #[trigger] v[i].rank() == v[i + 1].rank() + 1
}

/// Whether values sorted from the highest down form a run: each one below
/// the one before it, except that an ace may stand before a five (the ace
/// playing low).
pub open spec fn is_run(v: Seq<Value>) -> bool {
    &&& steps_down_by_one(v, 1)
    &&& (v.len() < 2 || v[0].rank() == v[1].rank() + 1 || (v[0] == Value::Ace && v[1]
        == Value::Five))
}

/// A hand is a straight exactly when its sorted values run down one by one,
/// or run A, 5, 4, ... with the ace playing low: an ace before any other
/// value than a king or a five breaks the straight.
pub proof fn lemma_straight_is_a_run(v: Seq<Value>)
    requires
        v.len() >= 1,
        v[0] == Value::Ace ==> v.len() >= 2,
    ensures
        straight_run(v) == is_run(v),
{
    if v.len() >= 2 {
        if v[0].rank() == 14 && v[1].rank() == 5 {
            assert(v[0] == Value::Ace && v[1] == Value::Five);
        } else {
            if v[0] == Value::Ace && v[1] == Value::Five {
                assert(false);
            }
        }
    } else {
        assert(v[0] != Value::Ace);
    }
}

/// The walk order goes down one rank at a time from the ace, and holds
/// every value.
pub proof fn lemma_walk_order_ranks()
    ensures
        walk_order().len() == 13,
        forall|j: int| 0 <= j < 13 ==> #[trigger] walk_order()[j].rank() == 14 - j,
        forall|v: Value| #[trigger] walk_order()[14 - v.rank()] == v,
{
    let w = walk_order();
    assert(w[0].rank() == 14 && w[1].rank() == 13 && w[2].rank() == 12 && w[3].rank() == 11);
    assert(w[4].rank() == 10 && w[5].rank() == 9 && w[6].rank() == 8 && w[7].rank() == 7);
    assert(w[8].rank() == 6 && w[9].rank() == 5 && w[10].rank() == 4 && w[11].rank() == 3);
    assert(w[12].rank() == 2);
    assert forall|v: Value| #[trigger] w[14 - v.rank()] == v by {
        match v {
            Value::Ace => {},
            Value::King => {},
            Value::Queen => {},
            Value::Jack => {},
            Value::Ten => {},
            Value::Nine => {},
            Value::Eight => {},
            Value::Seven => {},
            Value::Six => {},
            Value::Five => {},
            Value::Four => {},
            Value::Three => {},
            Value::Two => {},
        }
    }
}

proof fn lemma_first_count(t: Seq<Card>, n: nat, from: int)
    requires
        0 <= from,
    ensures
        match first_count_from(t, n, from) {
            Some(j) => from <= j < 13 && count(t, walk_order()[j]) == n,
            None => forall|j: int| from <= j < 13 ==> count(t, #[trigger] walk_order()[j]) != n,
        },
    decreases 13 - from,
{
    if from < 13 {
        lemma_first_count(t, n, from + 1);
    }
}

proof fn lemma_partner(t: Seq<Card>, key: int, from: int)
    requires
        0 <= from,
    ensures
        match partner_from(t, key, from) {
            Some(j) => from <= j < 13 && (count(t, walk_order()[j]) == 3 || (count(
                t,
                walk_order()[j],
            ) == 2 && j != key)),
            None => forall|j: int|
                from <= j < 13 ==> count(t, #[trigger] walk_order()[j]) != 3 && !(count(
                    t,
                    walk_order()[j],
                ) == 2 && j != key),
        },
    decreases 13 - from,
{
    if from < 13 {
        lemma_partner(t, key, from + 1);
    }
}

/// The values that occur in `t` other than `key`, from the highest down.
pub open spec fn lists_other_values(t: Seq<Card>, key: Value, o: Seq<Value>) -> bool {
    &&& forall|x: Value| o.contains(x) <==> (count(t, x) > 0 && x != key)
    &&& forall|i: int, j: int| 0 <= i < j < o.len() ==> (#[trigger] o[i]).rank() > (#[trigger] o[j]).rank()
}

proof fn lemma_others(t: Seq<Card>, key: int, from: int)
    requires
        0 <= from <= 13,
    ensures
        forall|x: Value|
            #[trigger] others_from(t, key, from).contains(x) <==> exists|j: int|
                from <= j < 13 && walk_order()[j] == x && count(t, x) > 0 && j != key,
        forall|i: int, j: int|
            0 <= i < j < others_from(t, key, from).len() ==> (#[trigger] others_from(t, key, from)[i]).rank()
                > (#[trigger] others_from(t, key, from)[j]).rank(),
        forall|i: int|
            0 <= i < others_from(t, key, from).len() ==> (#[trigger] others_from(t, key, from)[i]).rank()
                <= 14 - from,
    decreases 13 - from,
{
    lemma_walk_order_ranks();
    if from < 13 {
        lemma_others(t, key, from + 1);
        let rest = others_from(t, key, from + 1);
        let o = others_from(t, key, from);
        let w = walk_order();
        if count(t, w[from]) > 0 && from != key {
            assert(o == seq![w[from]] + rest);
            assert forall|x: Value| #[trigger] o.contains(x) <==> exists|j: int|
                from <= j < 13 && w[j] == x && count(t, x) > 0 && j != key by {
                if o.contains(x) {
                    let i = choose|i: int| 0 <= i < o.len() && o[i] == x;
                    if i > 0 {
                        assert(rest[i - 1] == x);
                        assert(rest.contains(x));
                    }
                }
                if exists|j: int| from <= j < 13 && w[j] == x && count(t, x) > 0 && j != key {
                    if x == w[from] {
                        assert(o[0] == x);
                    } else {
                        let j = choose|j: int|
                            from <= j < 13 && w[j] == x && count(t, x) > 0 && j != key;
                        assert(j != from);
                        assert(rest.contains(x));
                        let i = choose|i: int| 0 <= i < rest.len() && rest[i] == x;
                        assert(o[i + 1] == x);
                    }
                }
            }
            assert forall|i: int, j: int| 0 <= i < j < o.len() implies (#[trigger] o[i]).rank()
                > (#[trigger] o[j]).rank() by {
                assert(o[j] == rest[j - 1]);
                if i > 0 {
                    assert(o[i] == rest[i - 1]);
                }
            }
            assert forall|i: int| 0 <= i < o.len() implies (#[trigger] o[i]).rank() <= 14 - from by {
                if i > 0 {
                    assert(o[i] == rest[i - 1]);
                }
            }
        } else {
            assert forall|x: Value| #[trigger] o.contains(x) <==> exists|j: int|
                from <= j < 13 && w[j] == x && count(t, x) > 0 && j != key by {
                if exists|j: int| from <= j < 13 && w[j] == x && count(t, x) > 0 && j != key {
                    let j = choose|j: int|
                        from <= j < 13 && w[j] == x && count(t, x) > 0 && j != key;
                    assert(j != from);
                }
            }
        }
    }
}

/// What the search for repeated values finds agrees with how often each
/// value occurs: four of a kind has a value four times and a kicker once;
/// a full house a value three times and one twice; three of a kind a value
/// three times and none twice; two pair two values twice each and a kicker
/// once; a pair a value twice, no value three times and no other twice; a
/// high card no value twice or three times. The other values listed run
/// from the highest down.
pub open spec fn counts_agree(t: Seq<Card>, kind: HandKind) -> bool {
    match kind {
        HandKind::FourKind { kind_value, kicker } => count(t, kind_value) == 4 && count(t, kicker)
            == 1,
        HandKind::FullHouse { three_value, two_value } => count(t, three_value) == 3 && count(
            t,
            two_value,
        ) == 2,
        HandKind::ThreeKind { three_value, other_cards } => {
            &&& count(t, three_value) == 3
            &&& forall|v: Value| #[trigger] count(t, v) != 2
            &&& lists_other_values(t, three_value, other_cards)
        },
        HandKind::TwoPair { pair_one, pair_two, kicker } => {
            &&& count(t, pair_one) == 2
            &&& count(t, pair_two) == 2
            &&& pair_one != pair_two
            &&& count(t, kicker) == 1
        },
        HandKind::Pair { pair, other_cards } => {
            &&& count(t, pair) == 2
            &&& forall|v: Value| #[trigger] count(t, v) != 3
            &&& forall|v: Value| v != pair ==> #[trigger] count(t, v) != 2
            &&& lists_other_values(t, pair, other_cards)
        },
        HandKind::HighCard { cards } => {
            &&& cards == values(t)
            &&& forall|v: Value| #[trigger] count(t, v) != 2 && count(t, v) != 3
        },
        _ => false,
    }
}

proof fn lemma_pairs_from_counts(t: Seq<Card>, k: int)
    requires
        0 <= k <= 13,
        !kicker_missing_from(t, k),
        forall|j: int| 0 <= j < k ==> {
            let n = count(t, #[trigger] walk_order()[j]);
            n != 2 && n != 3
        },
    ensures
        counts_agree(t, pairs_from(t, k)),
    decreases 13 - k,
{
    lemma_walk_order_ranks();
    let w = walk_order();
    lemma_first_count(t, 1, 0);
    lemma_first_count(t, 2, 0);
    if k == 13 {
        assert forall|v: Value| #[trigger] count(t, v) != 2 && count(t, v) != 3 by {
            assert(w[14 - v.rank()] == v);
        }
    } else {
        let key = w[k];
        let n = count(t, key);
        lemma_partner(t, k, 0);
        lemma_others(t, k, 0);
        if n == 4 && first_count_from(t, 1, 0) is Some {
        } else if n == 3 {
            if first_count_from(t, 2, 0) is None {
                assert forall|v: Value| #[trigger] count(t, v) != 2 by {
                    assert(w[14 - v.rank()] == v);
                }
                let o = others_from(t, k, 0);
                assert forall|x: Value| o.contains(x) <==> (count(t, x) > 0 && x != key) by {
                    if count(t, x) > 0 && x != key {
                        assert(w[14 - x.rank()] == x);
                    }
                }
            }
        } else if n == 2 {
            match partner_from(t, k, 0) {
                Some(j) => {},
                None => {
                    assert forall|v: Value| #[trigger] count(t, v) != 3 by {
                        assert(w[14 - v.rank()] == v);
                    }
                    assert forall|v: Value| v != key implies #[trigger] count(t, v) != 2 by {
                        assert(w[14 - v.rank()] == v);
                    }
                    let o = others_from(t, k, 0);
                    assert forall|x: Value| o.contains(x) <==> (count(t, x) > 0 && x != key) by {
                        if count(t, x) > 0 && x != key {
                            assert(w[14 - x.rank()] == x);
                        }
                    }
                },
            }
        } else {
            lemma_pairs_from_counts(t, k + 1);
        }
    }
}

/// Whether all the cards of `s` share one suit.
pub open spec fn one_suit(s: Seq<Card>) -> bool {
    forall|i: int, j: int| 0 <= i < s.len() && 0 <= j < s.len() ==> #[trigger] s[i].suit == #[trigger] s[j].suit
}

/// The category of a hand, in terms of its suits and values. With `v` its
/// values from the highest down:
/// a royal flush is one suit running down from an ace through a king; a
/// straight flush is any other run in one suit, its kicker the first value
/// (the ace, for the run from the ace down to the five); a flush is one
/// suit with no run; a straight is a run in more than one suit, its kicker
/// the first value; any other hand is found from how often each value
/// occurs (see `counts_agree`), counted as in the hand itself.
pub proof fn lemma_classification(s: Seq<Card>)
    requires
        classifiable(s),
    ensures
        ({
            let t = ranked(s);
            let v = values(t);
            let run = is_run(v);
            let royal = one_suit(s) && run && v[0] == Value::Ace && v[1] == Value::King;
            &&& v.len() == s.len()
            &&& forall|i: int| 0 <= i < v.len() ==> #[trigger] v[i] == t[i].value
            &&& forall|i: int, j: int| 0 <= i <= j < v.len() ==> (#[trigger] v[i]).rank() >= (#[trigger] v[j]).rank()
            &&& forall|x: Value| #[trigger] count(t, x) == count(s, x)
            &&& (classify(s) is RoyalFlush) == royal
            &&& (classify(s) is StraightFlush) == (one_suit(s) && run && !royal)
            &&& (classify(s) matches HandKind::StraightFlush { kicker } ==> kicker == v[0])
            &&& (classify(s) is Flush) == (one_suit(s) && !run)
            &&& (classify(s) matches HandKind::Flush { cards } ==> cards == v)
            &&& (classify(s) is Straight) == (!one_suit(s) && run)
            &&& (classify(s) matches HandKind::Straight { kicker } ==> kicker == v[0])
            &&& (!one_suit(s) && !run) ==> counts_agree(t, classify(s))
        }),
{
    reveal(classify);
    reveal(classifiable);
    reveal(ranked);
    let once = sorted_high_to_low(s);
    let t = sorted_high_to_low(once);
    let v = values(t);
    lemma_sorted_suits_and_aces(s);
    lemma_sorted_suits_and_aces(once);
    crate::hand::sorting::lemma_sorted_descending(once);
    assert forall|i: int, j: int| 0 <= i <= j < v.len() implies (#[trigger] v[i]).rank() >= (
    #[trigger] v[j]).rank() by {
        assert(t[i].value.rank() >= t[j].value.rank());
    }
    assert forall|x: Value| #[trigger] count(t, x) == count(s, x) by {
        lemma_sorted_tally(s, |c: Card| c.value == x);
        lemma_sorted_tally(once, |c: Card| c.value == x);
    }
    if v[0] == Value::Ace {
        assert(t[0].value == Value::Ace);
        lemma_sorted_ace_first(once);
    }
    lemma_straight_is_a_run(v);
    if v.len() >= 2 && v[0] == Value::Ace && is_run(v) {
        if v[1] != Value::Five {
            assert(v[1].rank() == 13);
            crate::card::value::lemma_rank_injective(v[1], Value::King);
        }
    }
    if !all_same_suit(s) && !is_run(v) {
        lemma_pairs_from_counts(t, 0);
    }
    lemma_pairs_never_flush_or_straight(t, 0);
    if one_suit(s) {
        assert forall|i: int| 0 <= i < s.len() implies #[trigger] s[i].suit == s[0].suit by {
            assert(s[i].suit == s[0].suit);
        }
    }
    if all_same_suit(s) {
        assert forall|i: int, j: int| 0 <= i < s.len() && 0 <= j < s.len() implies #[trigger] s[i].suit
            == #[trigger] s[j].suit by {
            assert(s[i].suit == s[0].suit);
            assert(s[j].suit == s[0].suit);
        }
    }
    assert(one_suit(s) == all_same_suit(s));
}

proof fn lemma_pairs_never_flush_or_straight(t: Seq<Card>, k: int)
    ensures
        !(pairs_from(t, k) is RoyalFlush),
        !(pairs_from(t, k) is StraightFlush),
        !(pairs_from(t, k) is Flush),
        !(pairs_from(t, k) is Straight),
    decreases 13 - k,
{
    if 0 <= k < 13 {
        lemma_pairs_never_flush_or_straight(t, k + 1);
    }
}

} // verus!
