use vstd::prelude::*;
use vstd::std_specs::cmp::PartialEqSpecImpl;
use vstd::std_specs::cmp::PartialOrdSpecImpl;
use core::cmp::Ordering;

use crate::card::value::Value;
use crate::card::{compare_ranks, rank_order};
use crate::hand::sorting::at;

verus! {

/// The category of a poker hand, with the values that break ties inside it.
#[derive(Debug, Clone)]
pub enum HandType {
    RoyalFlush,
    StraightFlush { kicker: Value },
    FourKind { kind_value: Value, kicker: Value },
    FullHouse { three_value: Value, two_value: Value },
    Flush { cards: Vec<Value> },
    Straight { kicker: Value },
    ThreeKind { three_value: Value, other_cards: Vec<Value> },
    TwoPair { pair_one: Value, pair_two: Value, kicker: Value },
    Pair { pair: Value, other_cards: Vec<Value> },
    HighCard { cards: Vec<Value> },
}

/// The mathematical model of a [`HandType`]: the same categories, with
/// sequences in place of vectors.
pub enum HandKind {
    RoyalFlush,
    StraightFlush { kicker: Value },
    FourKind { kind_value: Value, kicker: Value },
    FullHouse { three_value: Value, two_value: Value },
    Flush { cards: Seq<Value> },
    Straight { kicker: Value },
    ThreeKind { three_value: Value, other_cards: Seq<Value> },
    TwoPair { pair_one: Value, pair_two: Value, kicker: Value },
    Pair { pair: Value, other_cards: Seq<Value> },
    HighCard { cards: Seq<Value> },
}

impl View for HandType {
    type V = HandKind;

    open spec fn view(&self) -> HandKind {
        match self {
            HandType::RoyalFlush => HandKind::RoyalFlush,
            HandType::StraightFlush { kicker } => HandKind::StraightFlush { kicker: *kicker },
            HandType::FourKind { kind_value, kicker } => HandKind::FourKind {
                kind_value: *kind_value,
                kicker: *kicker,
            },
            HandType::FullHouse { three_value, two_value } => HandKind::FullHouse {
                three_value: *three_value,
                two_value: *two_value,
            },
            HandType::Flush { cards } => HandKind::Flush { cards: cards@ },
            HandType::Straight { kicker } => HandKind::Straight { kicker: *kicker },
            HandType::ThreeKind { three_value, other_cards } => HandKind::ThreeKind {
                three_value: *three_value,
                other_cards: other_cards@,
            },
            HandType::TwoPair { pair_one, pair_two, kicker } => HandKind::TwoPair {
                pair_one: *pair_one,
                pair_two: *pair_two,
                kicker: *kicker,
            },
            HandType::Pair { pair, other_cards } => HandKind::Pair {
                pair: *pair,
                other_cards: other_cards@,
            },
            HandType::HighCard { cards } => HandKind::HighCard { cards: cards@ },
        }
    }
}

impl HandKind {
    /// The tier of the category: 10 for a royal flush down to 1 for a high card.
    pub open spec fn tier(self) -> u8 {
        match self {
            HandKind::RoyalFlush => 10,
            HandKind::StraightFlush { .. } => 9,
            HandKind::FourKind { .. } => 8,
            HandKind::FullHouse { .. } => 7,
            HandKind::Flush { .. } => 6,
            HandKind::Straight { .. } => 5,
            HandKind::ThreeKind { .. } => 4,
            HandKind::TwoPair { .. } => 3,
            HandKind::Pair { .. } => 2,
            HandKind::HighCard { .. } => 1,
        }
    }
}

/// The order of two tiers.
pub open spec fn tier_order(a: u8, b: u8) -> Ordering {
    if a < b {
        Ordering::Less
    } else if a > b {
        Ordering::Greater
    } else {
        Ordering::Equal
    }
}

/// The order of two values, by their numeric value.
pub open spec fn value_order(a: Value, b: Value) -> Ordering {
    rank_order(a.rank(), b.rank())
}

/// `first`, unless it is `Equal`; then `second`.
pub open spec fn then_order(first: Ordering, second: Ordering) -> Ordering {
    if first == Ordering::Equal {
        second
    } else {
        first
    }
}

/// The lexicographic order of two sequences of values, element by element
/// by numeric value; a proper prefix comes first.
pub open spec fn values_order(a: Seq<Value>, b: Seq<Value>) -> Ordering
    decreases a.len(),
{
    if a.len() == 0 {
        if b.len() == 0 {
            Ordering::Equal
        } else {
            Ordering::Less
        }
    } else if b.len() == 0 {
        Ordering::Greater
    } else {
        then_order(value_order(a[0], b[0]), values_order(a.drop_first(), b.drop_first()))
    }
}

/// How two hands compare: by tier first; within a tier, by the values that
/// the category holds, in the order the category lists them. Royal flushes,
/// and two pairs whatever their values, compare equal.
pub open spec fn kind_order(a: HandKind, b: HandKind) -> Ordering {
    if a.tier() == b.tier() {
        match (a, b) {
            (
                HandKind::StraightFlush { kicker: k1 },
                HandKind::StraightFlush { kicker: k2 },
            ) => value_order(k1, k2),
            (
                HandKind::FourKind { kind_value: kv1, kicker: k1 },
                HandKind::FourKind { kind_value: kv2, kicker: k2 },
            ) => then_order(value_order(kv1, kv2), value_order(k1, k2)),
            (
                HandKind::FullHouse { three_value: t1, two_value: w1 },
                HandKind::FullHouse { three_value: t2, two_value: w2 },
            ) => then_order(value_order(t1, t2), value_order(w1, w2)),
            (HandKind::Straight { kicker: k1 }, HandKind::Straight { kicker: k2 }) => value_order(
                k1,
                k2,
            ),
            (HandKind::Flush { cards: c1 }, HandKind::Flush { cards: c2 }) => values_order(c1, c2),
            (
                HandKind::ThreeKind { three_value: t1, other_cards: c1 },
                HandKind::ThreeKind { three_value: t2, other_cards: c2 },
            ) => then_order(value_order(t1, t2), values_order(c1, c2)),
            (
                HandKind::Pair { pair: p1, other_cards: c1 },
                HandKind::Pair { pair: p2, other_cards: c2 },
            ) => then_order(value_order(p1, p2), values_order(c1, c2)),
            (HandKind::HighCard { cards: c1 }, HandKind::HighCard { cards: c2 }) => values_order(
                c1,
                c2,
            ),
            _ => Ordering::Equal,
        }
    } else {
        tier_order(a.tier(), b.tier())
    }
}

/// The order of two values.
fn compare_values(a: &Value, b: &Value) -> (o: Ordering)
    ensures
        o == value_order(*a, *b),
{
    compare_ranks(a.numeric_value(), b.numeric_value())
}

/// `first`, unless it is `Equal`; then `second`.
fn then_with(first: Ordering, second: Ordering) -> (o: Ordering)
    ensures
        o == then_order(first, second),
{
    match first {
        Ordering::Equal => second,
        _ => first,
    }
}

/// The lexicographic order of two vectors of values.
pub fn compare_value_lists(a: &Vec<Value>, b: &Vec<Value>) -> (o: Ordering)
    ensures
        o == values_order(a@, b@),
{
    let mut i: usize = 0;
    assert(a@.skip(at(i)) =~= a@);
    assert(b@.skip(at(i)) =~= b@);
    while i < a.len() && i < b.len()
        invariant
            i <= a.len(),
            i <= b.len(),
            forall|k: int| 0 <= k < i ==> value_order(#[trigger] a@[k], b@[k]) == Ordering::Equal,
            values_order(a@, b@) == values_order(a@.skip(at(i)), b@.skip(at(i))),
        decreases a.len() - i,
    {
        let o = compare_values(&a[i], &b[i]);
        assert(a@.skip(at(i)).drop_first() =~= a@.skip(at(i) + 1));
        assert(b@.skip(at(i)).drop_first() =~= b@.skip(at(i) + 1));
        assert(a@.skip(at(i))[0] == a@[at(i)]);
        assert(b@.skip(at(i))[0] == b@[at(i)]);
        match o {
            Ordering::Equal => {},
            _ => {
                return o;
            },
        }
        i = i + 1;
    }
    if i < a.len() {
        Ordering::Greater
    } else if i < b.len() {
        Ordering::Less
    } else {
        Ordering::Equal
    }
}

impl HandType {
    /// The tier of the hand: 10 for a royal flush, 9 for a straight flush,
    /// 8 for four of a kind, 7 for a full house, 6 for a flush, 5 for a
    /// straight, 4 for three of a kind, 3 for two pair, 2 for a pair and 1
    /// for a high card.
    pub fn hand_value(&self) -> (tier: u8)
        ensures
            tier == self@.tier(),
    {
        match *self {
            HandType::RoyalFlush => 10,
            HandType::StraightFlush { .. } => 9,
            HandType::FourKind { .. } => 8,
            HandType::FullHouse { .. } => 7,
            HandType::Flush { .. } => 6,
            HandType::Straight { .. } => 5,
            HandType::ThreeKind { .. } => 4,
            HandType::TwoPair { .. } => 3,
            HandType::Pair { .. } => 2,
            HandType::HighCard { .. } => 1,
        }
    }

    /// The full order of two hands: by tier, then by the values of the
    /// category.
    pub fn compare(&self, other: &HandType) -> (o: Ordering)
        ensures
            o == kind_order(self@, other@),
    {
        let t1 = self.hand_value();
        let t2 = other.hand_value();
        if t1 == t2 {
            match (self, other) {
                (HandType::StraightFlush { kicker: k1 }, HandType::StraightFlush { kicker: k2 }) => {
                    compare_values(k1, k2)
                },
                (
                    HandType::FourKind { kind_value: kv1, kicker: k1 },
                    HandType::FourKind { kind_value: kv2, kicker: k2 },
                ) => then_with(compare_values(kv1, kv2), compare_values(k1, k2)),
                (
                    HandType::FullHouse { three_value: t1, two_value: w1 },
                    HandType::FullHouse { three_value: t2, two_value: w2 },
                ) => then_with(compare_values(t1, t2), compare_values(w1, w2)),
                (HandType::Straight { kicker: k1 }, HandType::Straight { kicker: k2 }) => {
                    compare_values(k1, k2)
                },
                (HandType::Flush { cards: c1 }, HandType::Flush { cards: c2 }) => {
                    compare_value_lists(c1, c2)
                },
                (
                    HandType::ThreeKind { three_value: t1, other_cards: c1 },
                    HandType::ThreeKind { three_value: t2, other_cards: c2 },
                ) => then_with(compare_values(t1, t2), compare_value_lists(c1, c2)),
                (
                    HandType::Pair { pair: p1, other_cards: c1 },
                    HandType::Pair { pair: p2, other_cards: c2 },
                ) => then_with(compare_values(p1, p2), compare_value_lists(c1, c2)),
                (HandType::HighCard { cards: c1 }, HandType::HighCard { cards: c2 }) => {
                    compare_value_lists(c1, c2)
                },
                _ => Ordering::Equal,
            }
        } else if t1 < t2 {
            Ordering::Less
        } else {
            Ordering::Greater
        }
    }
}

/// The order of two optional categories: none comes before any.
pub open spec fn optional_order(a: Option<HandKind>, b: Option<HandKind>) -> Ordering {
    match (a, b) {
        (None, None) => Ordering::Equal,
        (None, Some(_)) => Ordering::Less,
        (Some(_), None) => Ordering::Greater,
        (Some(x), Some(y)) => kind_order(x, y),
    }
}

/// Compares two optional hand types: none comes before any.
pub fn compare_optional(a: &Option<HandType>, b: &Option<HandType>) -> (o: Ordering)
    ensures
        o == optional_order(
            match a {
                Some(k) => Some(k@),
                None => None,
            },
            match b {
                Some(k) => Some(k@),
                None => None,
            },
        ),
{
    match (a, b) {
        (None, None) => Ordering::Equal,
        (None, Some(_)) => Ordering::Less,
        (Some(_), None) => Ordering::Greater,
        (Some(x), Some(y)) => x.compare(y),
    }
}

/// Two hand types are equal when they are of the same tier, whatever values
/// they hold.
impl PartialEq for HandType {
    fn eq(&self, other: &Self) -> (same: bool) {
        self.hand_value() == other.hand_value()
    }
}

impl PartialEqSpecImpl for HandType {
    open spec fn obeys_eq_spec() -> bool {
        true
    }

    open spec fn eq_spec(&self, other: &HandType) -> bool {
        self@.tier() == other@.tier()
    }
}

impl Eq for HandType {}

/// Hand types are ordered by `compare`: by tier, then by their values.
impl PartialOrd for HandType {
    fn partial_cmp(&self, other: &Self) -> (o: Option<Ordering>) {
        Some(self.compare(other))
    }
}

impl PartialOrdSpecImpl for HandType {
    open spec fn obeys_partial_cmp_spec() -> bool {
        true
    }

    open spec fn partial_cmp_spec(&self, other: &HandType) -> Option<Ordering> {
        Some(kind_order(self@, other@))
    }
}

/// The opposite order: less becomes greater and greater less.
pub open spec fn reversed(o: Ordering) -> Ordering {
    match o {
        Ordering::Less => Ordering::Greater,
        Ordering::Equal => Ordering::Equal,
        Ordering::Greater => Ordering::Less,
    }
}

/// Comparing sequences of values the other way round gives the opposite
/// order, and a sequence is equal to itself.
pub proof fn lemma_values_order_antisymmetric(a: Seq<Value>, b: Seq<Value>)
    ensures
        values_order(a, b) == reversed(values_order(b, a)),
        values_order(a, a) == Ordering::Equal,
    decreases a.len(),
{
    if a.len() > 0 && b.len() > 0 {
        lemma_values_order_antisymmetric(a.drop_first(), b.drop_first());
    }
    if a.len() > 0 {
        lemma_values_order_antisymmetric(a.drop_first(), a.drop_first());
    }
}

/// A hand of a higher tier beats a hand of a lower tier, whatever values
/// either holds.
pub proof fn lemma_higher_tier_wins(a: HandKind, b: HandKind)
    requires
        a.tier() > b.tier(),
    ensures
        kind_order(a, b) == Ordering::Greater,
        kind_order(b, a) == Ordering::Less,
{
}

/// Comparing two hands the other way round gives the opposite order, and
/// every hand is equal to itself.
pub proof fn lemma_kind_order_antisymmetric(a: HandKind, b: HandKind)
    ensures
        kind_order(a, b) == reversed(kind_order(b, a)),
        kind_order(a, a) == Ordering::Equal,
{
    match (a, b) {
        (HandKind::Flush { cards: c1 }, HandKind::Flush { cards: c2 }) => {
            lemma_values_order_antisymmetric(c1, c2);
        },
        (HandKind::HighCard { cards: c1 }, HandKind::HighCard { cards: c2 }) => {
            lemma_values_order_antisymmetric(c1, c2);
        },
        (
            HandKind::ThreeKind { other_cards: c1, .. },
            HandKind::ThreeKind { other_cards: c2, .. },
        ) => {
            lemma_values_order_antisymmetric(c1, c2);
        },
        (HandKind::Pair { other_cards: c1, .. }, HandKind::Pair { other_cards: c2, .. }) => {
            lemma_values_order_antisymmetric(c1, c2);
        },
        _ => {},
    }
    match a {
        HandKind::Flush { cards: c } => lemma_values_order_antisymmetric(c, c),
        HandKind::HighCard { cards: c } => lemma_values_order_antisymmetric(c, c),
        HandKind::ThreeKind { other_cards: c, .. } => lemma_values_order_antisymmetric(c, c),
        HandKind::Pair { other_cards: c, .. } => lemma_values_order_antisymmetric(c, c),
        _ => {},
    }
}

/// The order of sequences of values is transitive: from `a` up to `b` and
/// from `b` up to `c` leads from `a` up to `c`, strictly when either step is
/// strict.
pub proof fn lemma_values_order_transitive(a: Seq<Value>, b: Seq<Value>, c: Seq<Value>)
    ensures
        values_order(a, b) != Ordering::Greater && values_order(b, c) != Ordering::Greater
            ==> values_order(a, c) != Ordering::Greater,
        values_order(a, b) == Ordering::Less && values_order(b, c) != Ordering::Greater
            ==> values_order(a, c) == Ordering::Less,
        values_order(a, b) != Ordering::Greater && values_order(b, c) == Ordering::Less
            ==> values_order(a, c) == Ordering::Less,
    decreases a.len(),
{
    if a.len() > 0 && b.len() > 0 && c.len() > 0 {
        lemma_values_order_transitive(a.drop_first(), b.drop_first(), c.drop_first());
    }
}

/// The order of hands is transitive: from `a` up to `b` and from `b` up to
/// `c` leads from `a` up to `c`, strictly when either step is strict.
pub proof fn lemma_kind_order_transitive(a: HandKind, b: HandKind, c: HandKind)
    ensures
        kind_order(a, b) != Ordering::Greater && kind_order(b, c) != Ordering::Greater
            ==> kind_order(a, c) != Ordering::Greater,
        kind_order(a, b) == Ordering::Less && kind_order(b, c) != Ordering::Greater
            ==> kind_order(a, c) == Ordering::Less,
        kind_order(a, b) != Ordering::Greater && kind_order(b, c) == Ordering::Less
            ==> kind_order(a, c) == Ordering::Less,
{
    match (a, b, c) {
        (
            HandKind::Flush { cards: c1 },
            HandKind::Flush { cards: c2 },
            HandKind::Flush { cards: c3 },
        ) => {
            lemma_values_order_transitive(c1, c2, c3);
        },
        (
            HandKind::HighCard { cards: c1 },
            HandKind::HighCard { cards: c2 },
            HandKind::HighCard { cards: c3 },
        ) => {
            lemma_values_order_transitive(c1, c2, c3);
        },
        (
            HandKind::ThreeKind { other_cards: c1, .. },
            HandKind::ThreeKind { other_cards: c2, .. },
            HandKind::ThreeKind { other_cards: c3, .. },
        ) => {
            lemma_values_order_transitive(c1, c2, c3);
        },
        (
            HandKind::Pair { other_cards: c1, .. },
            HandKind::Pair { other_cards: c2, .. },
            HandKind::Pair { other_cards: c3, .. },
        ) => {
            lemma_values_order_transitive(c1, c2, c3);
        },
        _ => {},
    }
}

/// Within a tier the leading value decides first, whatever the kickers: a
/// higher pair, three of a kind, four of a kind or three-card part of a
/// full house wins.
pub proof fn lemma_leading_value_decides(a: HandKind, b: HandKind)
    requires
        a.tier() == b.tier(),
        match (a, b) {
            (HandKind::Pair { pair: p1, .. }, HandKind::Pair { pair: p2, .. }) => p1.rank()
                > p2.rank(),
            (
                HandKind::ThreeKind { three_value: t1, .. },
                HandKind::ThreeKind { three_value: t2, .. },
            ) => t1.rank() > t2.rank(),
            (
                HandKind::FullHouse { three_value: t1, .. },
                HandKind::FullHouse { three_value: t2, .. },
            ) => t1.rank() > t2.rank(),
            (
                HandKind::FourKind { kind_value: k1, .. },
                HandKind::FourKind { kind_value: k2, .. },
            ) => k1.rank() > k2.rank(),
            _ => false,
        },
    ensures
        kind_order(a, b) == Ordering::Greater,
{
}

/// Whether `a` and `b` agree before position `k`, and there `a` holds the
/// higher value or `b` has ended while `a` goes on.
pub open spec fn first_difference_at(a: Seq<Value>, b: Seq<Value>, k: int) -> bool {
    &&& 0 <= k <= b.len()
    &&& k < a.len()
    &&& forall|i: int| 0 <= i < k ==> (#[trigger] a[i]).rank() == b[i].rank()
    &&& (k == b.len() || a[k].rank() > b[k].rank())
}

/// Whether `a` comes after `b` in dictionary order by value: at the first
/// position where they differ `a` holds the higher value, or `b` ends there
/// while `a` goes on.
pub open spec fn beats_in_order(a: Seq<Value>, b: Seq<Value>) -> bool {
    exists|k: int| #[trigger] first_difference_at(a, b, k)
}

/// Whether `a` beats `b`, two hands of one category, by the values they
/// hold: the higher kicker of a straight or straight flush; the higher
/// leading value of four or three of a kind, a full house or a pair, and
/// with equal leading values the higher second value (the kicker of four of
/// a kind, the pair of a full house) or the other cards in dictionary order;
/// the cards of a flush or a high card in dictionary order.
pub open spec fn beats_within_tier(a: HandKind, b: HandKind) -> bool {
    match (a, b) {
        (HandKind::StraightFlush { kicker: k1 }, HandKind::StraightFlush { kicker: k2 }) => k1.rank()
            > k2.rank(),
        (HandKind::Straight { kicker: k1 }, HandKind::Straight { kicker: k2 }) => k1.rank()
            > k2.rank(),
        (
            HandKind::FourKind { kind_value: v1, kicker: k1 },
            HandKind::FourKind { kind_value: v2, kicker: k2 },
        ) => v1.rank() > v2.rank() || (v1 == v2 && k1.rank() > k2.rank()),
        (
            HandKind::FullHouse { three_value: t1, two_value: w1 },
            HandKind::FullHouse { three_value: t2, two_value: w2 },
        ) => t1.rank() > t2.rank() || (t1 == t2 && w1.rank() > w2.rank()),
        (HandKind::Flush { cards: c1 }, HandKind::Flush { cards: c2 }) => beats_in_order(c1, c2),
        (HandKind::HighCard { cards: c1 }, HandKind::HighCard { cards: c2 }) => beats_in_order(
            c1,
            c2,
        ),
        (
            HandKind::ThreeKind { three_value: t1, other_cards: c1 },
            HandKind::ThreeKind { three_value: t2, other_cards: c2 },
        ) => t1.rank() > t2.rank() || (t1 == t2 && beats_in_order(c1, c2)),
        (
            HandKind::Pair { pair: p1, other_cards: c1 },
            HandKind::Pair { pair: p2, other_cards: c2 },
        ) => p1.rank() > p2.rank() || (p1 == p2 && beats_in_order(c1, c2)),
        _ => false,
    }
}

/// Dictionary order: the first difference decides, and a proper prefix
/// comes first.
pub proof fn lemma_values_order_first_difference(a: Seq<Value>, b: Seq<Value>, k: int)
    requires
        first_difference_at(a, b, k),
    ensures
        values_order(a, b) == Ordering::Greater,
        values_order(b, a) == Ordering::Less,
    decreases k,
{
    if k > 0 {
        let a1 = a.drop_first();
        let b1 = b.drop_first();
        assert forall|i: int| 0 <= i < k - 1 implies (#[trigger] a1[i]).rank() == b1[i].rank() by {
            assert(a1[i] == a[i + 1] && b1[i] == b[i + 1]);
            assert(a[i + 1].rank() == b[i + 1].rank());
        }
        if k < b.len() {
            assert(a1[k - 1] == a[k] && b1[k - 1] == b[k]);
        }
        assert(first_difference_at(a1, b1, k - 1));
        lemma_values_order_first_difference(a1, b1, k - 1);
        assert(a[0].rank() == b[0].rank());
    }
}

/// Dictionary order, with the position of the first difference left open.
pub proof fn lemma_beats_in_order(a: Seq<Value>, b: Seq<Value>)
    requires
        beats_in_order(a, b),
    ensures
        values_order(a, b) == Ordering::Greater,
        values_order(b, a) == Ordering::Less,
{
    let k = choose|k: int| #[trigger] first_difference_at(a, b, k);
    lemma_values_order_first_difference(a, b, k);
}

/// Within a tier, the hand with the better values wins (see
/// `beats_within_tier`), and loses when the two are compared the other way.
pub proof fn lemma_better_values_win(a: HandKind, b: HandKind)
    requires
        beats_within_tier(a, b),
    ensures
        kind_order(a, b) == Ordering::Greater,
        kind_order(b, a) == Ordering::Less,
{
    match (a, b) {
        (HandKind::Flush { cards: c1 }, HandKind::Flush { cards: c2 }) => {
            lemma_beats_in_order(c1, c2);
        },
        (HandKind::HighCard { cards: c1 }, HandKind::HighCard { cards: c2 }) => {
            lemma_beats_in_order(c1, c2);
        },
        (
            HandKind::ThreeKind { three_value: t1, other_cards: c1 },
            HandKind::ThreeKind { three_value: t2, other_cards: c2 },
        ) => {
            if t1 == t2 {
                lemma_beats_in_order(c1, c2);
            }
        },
        (
            HandKind::Pair { pair: p1, other_cards: c1 },
            HandKind::Pair { pair: p2, other_cards: c2 },
        ) => {
            if p1 == p2 {
                lemma_beats_in_order(c1, c2);
            }
        },
        _ => {},
    }
}

/// Two royal flushes compare equal, and so do two hands of two pairs,
/// whatever values they hold.
pub proof fn lemma_two_pairs_tie(a: HandKind, b: HandKind)
    requires
        (a is TwoPair && b is TwoPair) || (a is RoyalFlush && b is RoyalFlush),
    ensures
        kind_order(a, b) == Ordering::Equal,
{
}

/// The order of optional hands (no hand first) is antisymmetric, reflexive
/// and transitive.
pub proof fn lemma_optional_order_laws(a: Option<HandKind>, b: Option<HandKind>, c: Option<HandKind>)
    ensures
        optional_order(a, b) == reversed(optional_order(b, a)),
        optional_order(a, a) == Ordering::Equal,
        optional_order(a, b) != Ordering::Greater && optional_order(b, c) != Ordering::Greater
            ==> optional_order(a, c) != Ordering::Greater,
        optional_order(a, b) == Ordering::Less && optional_order(b, c) != Ordering::Greater
            ==> optional_order(a, c) == Ordering::Less,
        optional_order(a, b) != Ordering::Greater && optional_order(b, c) == Ordering::Less
            ==> optional_order(a, c) == Ordering::Less,
{
    if let (Some(x), Some(y)) = (a, b) {
        lemma_kind_order_antisymmetric(x, y);
    }
    if let Some(x) = a {
        lemma_kind_order_antisymmetric(x, x);
    }
    if let (Some(x), Some(y), Some(z)) = (a, b, c) {
        lemma_kind_order_transitive(x, y, z);
    }
}

/// The categories rank, from the best down: royal flush, straight flush,
/// four of a kind, full house, flush, straight, three of a kind, two pair,
/// pair, high card; a hand of a better category wins whatever its values.
pub proof fn lemma_category_ranking(a: HandKind, b: HandKind)
    ensures
        (a is RoyalFlush && b is StraightFlush) ==> kind_order(a, b) == Ordering::Greater,
        (a is StraightFlush && b is FourKind) ==> kind_order(a, b) == Ordering::Greater,
        (a is FourKind && b is FullHouse) ==> kind_order(a, b) == Ordering::Greater,
        (a is FullHouse && b is Flush) ==> kind_order(a, b) == Ordering::Greater,
        (a is Flush && b is Straight) ==> kind_order(a, b) == Ordering::Greater,
        (a is Straight && b is ThreeKind) ==> kind_order(a, b) == Ordering::Greater,
        (a is ThreeKind && b is TwoPair) ==> kind_order(a, b) == Ordering::Greater,
        (a is TwoPair && b is Pair) ==> kind_order(a, b) == Ordering::Greater,
        (a is Pair && b is HighCard) ==> kind_order(a, b) == Ordering::Greater,
{
}

} // verus!
