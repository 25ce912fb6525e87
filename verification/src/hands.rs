//! Hand categories, their total order, and the evaluator that classifies a
//! set of cards into the best hand it contains.
use core::cmp::Ordering;
use vstd::prelude::*;

use crate::poker::{rank_from_ord, rank_index, rank_of, rank_val, suit_index, suit_val, Card, Rank};

verus! {

broadcast use crate::poker::lemma_rank_val_bounds, crate::poker::lemma_rank_of_val;

#[derive(Copy, Clone, Debug, PartialEq, Eq, PartialOrd, Ord, Structural)]
pub enum Hand {
    HighCard(Rank, Rank, Rank, Rank, Rank),
    Pair(Rank, Rank, Rank, Rank),
    TwoPair(Rank, Rank, Rank),
    ThreeOfAKind(Rank, Rank, Rank),
    Straight(Rank),
    Flush(Rank),
    FullHouse(Rank, Rank),
    FourOfAKind(Rank, Rank),
    StraightFlush(Rank),
    RoyalFlush,
}

/// Category index of a hand, in ascending order of strength.
pub open spec fn hand_cat(h: Hand) -> int {
    match h {
        Hand::HighCard(..) => 0,
        Hand::Pair(..) => 1,
        Hand::TwoPair(..) => 2,
        Hand::ThreeOfAKind(..) => 3,
        Hand::Straight(..) => 4,
        Hand::Flush(..) => 5,
        Hand::FullHouse(..) => 6,
        Hand::FourOfAKind(..) => 7,
        Hand::StraightFlush(..) => 8,
        Hand::RoyalFlush => 9,
    }
}

/// Tie-break value of a hand: its rank payload read as base-13 digits, most
/// significant field first. Always in 0 .. 13^5.
pub open spec fn hand_tie(h: Hand) -> int {
    match h {
        Hand::HighCard(a, b, c, d, e) => rank_val(a) * 28561 + rank_val(b) * 2197 + rank_val(c)
            * 169 + rank_val(d) * 13 + rank_val(e),
        Hand::Pair(p, a, b, c) => rank_val(p) * 2197 + rank_val(a) * 169 + rank_val(b) * 13
            + rank_val(c),
        Hand::TwoPair(a, b, k) => rank_val(a) * 169 + rank_val(b) * 13 + rank_val(k),
        Hand::ThreeOfAKind(t, a, b) => rank_val(t) * 169 + rank_val(a) * 13 + rank_val(b),
        Hand::Straight(r) => rank_val(r),
        Hand::Flush(r) => rank_val(r),
        Hand::FullHouse(t, p) => rank_val(t) * 13 + rank_val(p),
        Hand::FourOfAKind(q, k) => rank_val(q) * 13 + rank_val(k),
        Hand::StraightFlush(r) => rank_val(r),
        Hand::RoyalFlush => 0,
    }
}

/// Every hand maps to one integer; comparing keys compares hands,
/// category first, then tie-break fields left to right.
pub open spec fn hand_key(h: Hand) -> int {
    hand_cat(h) * 371293 + hand_tie(h)
}

/// The ordering that `Hand::compare` decides.
pub open spec fn hand_cmp_spec(a: Hand, b: Hand) -> Ordering {
    if hand_key(a) < hand_key(b) {
        Ordering::Less
    } else if hand_key(a) == hand_key(b) {
        Ordering::Equal
    } else {
        Ordering::Greater
    }
}

pub proof fn lemma_hand_tie_bounds(h: Hand)
    ensures
        0 <= hand_tie(h) < 371293,
{
}

/// Computes the key of a hand. The result fits comfortably in a `u32`.
pub(crate) fn hand_key_exec(h: &Hand) -> (k: u32)
    ensures
        k as int == hand_key(*h),
{
    let (cat, tie): (u32, u32) = match *h {
        Hand::HighCard(a, b, c, d, e) => (
            0,
            rank_index(a) as u32 * 28561 + rank_index(b) as u32 * 2197
                + rank_index(c) as u32 * 169 + rank_index(d) as u32
                * 13 + rank_index(e) as u32,
        ),
        Hand::Pair(p, a, b, c) => (
            1,
            rank_index(p) as u32 * 2197 + rank_index(a) as u32 * 169
                + rank_index(b) as u32 * 13 + rank_index(c) as u32,
        ),
        Hand::TwoPair(a, b, k) => (
            2,
            rank_index(a) as u32 * 169 + rank_index(b) as u32 * 13
                + rank_index(k) as u32,
        ),
        Hand::ThreeOfAKind(t, a, b) => (
            3,
            rank_index(t) as u32 * 169 + rank_index(a) as u32 * 13
                + rank_index(b) as u32,
        ),
        Hand::Straight(r) => (4, rank_index(r) as u32),
        Hand::Flush(r) => (5, rank_index(r) as u32),
        Hand::FullHouse(t, p) => (
            6,
            rank_index(t) as u32 * 13 + rank_index(p) as u32,
        ),
        Hand::FourOfAKind(q, k) => (
            7,
            rank_index(q) as u32 * 13 + rank_index(k) as u32,
        ),
        Hand::StraightFlush(r) => (8, rank_index(r) as u32),
        Hand::RoyalFlush => (9, 0),
    };
    cat * 371293 + tie
}

impl Hand {
    /// Total order on hands: category first, then the tie-break ranks in the
    /// order they are listed, highest field first.
    pub fn compare(&self, other: &Hand) -> (r: Ordering)
        ensures
            r == hand_cmp_spec(*self, *other),
            (r == Ordering::Less <==> hand_key(*self) < hand_key(*other)),
            (r == Ordering::Equal <==> *self == *other),
            (r == Ordering::Greater <==> hand_key(*self) > hand_key(*other)),
    {
        let a = hand_key_exec(self);
        let b = hand_key_exec(other);
        proof {
            if hand_key(*self) == hand_key(*other) {
                lemma_key_injective(*self, *other);
            }
        }
        if a < b {
            Ordering::Less
        } else if a == b {
            Ordering::Equal
        } else {
            Ordering::Greater
        }
    }
}

/// The hand order is transitive: a hand above a second, itself above a third,
/// is above the third.
pub proof fn lemma_hand_order_transitive(a: Hand, b: Hand, c: Hand)
    requires
        hand_cmp_spec(a, b) == Ordering::Greater,
        hand_cmp_spec(b, c) == Ordering::Greater,
    ensures
        hand_cmp_spec(a, c) == Ordering::Greater,
{
}

/// The hand order is total and antisymmetric: every pair of hands compares in
/// exactly one way, and swapping the operands mirrors the outcome.
pub proof fn lemma_hand_order_total(a: Hand, b: Hand)
    ensures
        hand_cmp_spec(a, b) == Ordering::Less || hand_cmp_spec(a, b) == Ordering::Equal
            || hand_cmp_spec(a, b) == Ordering::Greater,
        hand_cmp_spec(a, b) == Ordering::Less <==> hand_cmp_spec(b, a) == Ordering::Greater,
        hand_cmp_spec(a, b) == Ordering::Equal <==> hand_cmp_spec(b, a) == Ordering::Equal,
{
}

/// Distinct hand values never share a key: ties are equalities. Together with
/// `Hand::compare`, two card sets that yield the same best hand compare Equal,
/// and only those.
pub proof fn lemma_key_injective(a: Hand, b: Hand)
    requires
        hand_key(a) == hand_key(b),
    ensures
        a == b,
{
    lemma_hand_tie_bounds(a);
    lemma_hand_tie_bounds(b);
    assert(hand_cat(a) == hand_cat(b));
    assert(hand_tie(a) == hand_tie(b));
    if a is HighCard {
        assert(b is HighCard);
        assert(rank_val(a->HighCard_0) == rank_val(b->HighCard_0));
        assert(rank_val(a->HighCard_1) == rank_val(b->HighCard_1));
        assert(rank_val(a->HighCard_2) == rank_val(b->HighCard_2));
        assert(rank_val(a->HighCard_3) == rank_val(b->HighCard_3));
        assert(rank_val(a->HighCard_4) == rank_val(b->HighCard_4));
    } else if a is Pair {
        assert(b is Pair);
        assert(rank_val(a->Pair_0) == rank_val(b->Pair_0));
        assert(rank_val(a->Pair_1) == rank_val(b->Pair_1));
        assert(rank_val(a->Pair_2) == rank_val(b->Pair_2));
        assert(rank_val(a->Pair_3) == rank_val(b->Pair_3));
    } else if a is TwoPair {
        assert(b is TwoPair);
        assert(rank_val(a->TwoPair_0) == rank_val(b->TwoPair_0));
        assert(rank_val(a->TwoPair_1) == rank_val(b->TwoPair_1));
        assert(rank_val(a->TwoPair_2) == rank_val(b->TwoPair_2));
    } else if a is ThreeOfAKind {
        assert(b is ThreeOfAKind);
        assert(rank_val(a->ThreeOfAKind_0) == rank_val(b->ThreeOfAKind_0));
        assert(rank_val(a->ThreeOfAKind_1) == rank_val(b->ThreeOfAKind_1));
        assert(rank_val(a->ThreeOfAKind_2) == rank_val(b->ThreeOfAKind_2));
    } else if a is Straight {
        assert(b is Straight);
        assert(rank_val(a->Straight_0) == rank_val(b->Straight_0));
    } else if a is Flush {
        assert(b is Flush);
        assert(rank_val(a->Flush_0) == rank_val(b->Flush_0));
    } else if a is FullHouse {
        assert(b is FullHouse);
        assert(rank_val(a->FullHouse_0) == rank_val(b->FullHouse_0));
        assert(rank_val(a->FullHouse_1) == rank_val(b->FullHouse_1));
    } else if a is FourOfAKind {
        assert(b is FourOfAKind);
        assert(rank_val(a->FourOfAKind_0) == rank_val(b->FourOfAKind_0));
        assert(rank_val(a->FourOfAKind_1) == rank_val(b->FourOfAKind_1));
    } else if a is StraightFlush {
        assert(b is StraightFlush);
        assert(rank_val(a->StraightFlush_0) == rank_val(b->StraightFlush_0));
    } else {
        assert(b is RoyalFlush);
    }
}

/// A hand of a lower category loses to any hand of a higher category,
/// whatever the tie-break ranks on either side.
pub proof fn lemma_category_order(a: Hand, b: Hand)
    requires
        hand_cat(a) < hand_cat(b),
    ensures
        hand_cmp_spec(a, b) == Ordering::Less,
{
    lemma_hand_tie_bounds(a);
    lemma_hand_tie_bounds(b);
}

/// Within the Straight category the high card alone decides: the wheel,
/// reported as Straight(Five), loses to every higher straight.
pub proof fn lemma_straight_order(r1: Rank, r2: Rank)
    requires
        rank_val(r1) < rank_val(r2),
    ensures
        hand_cmp_spec(Hand::Straight(r1), Hand::Straight(r2)) == Ordering::Less,
{
}

// ------------------------------------------------------------------
// Counting cards by rank and suit
// ------------------------------------------------------------------

/// Number of cards in `cards` whose rank has ordinal `v`.
pub open spec fn count_rank(cards: Seq<Card>, v: int) -> int
    decreases cards.len(),
{
    if cards.len() == 0 {
        0
    } else {
        count_rank(cards.drop_last(), v) + if rank_val(cards.last().rank) == v {
            1int
        } else {
            0int
        }
    }
}

/// Number of cards in `cards` whose suit has ordinal `s`.
pub open spec fn count_suit(cards: Seq<Card>, s: int) -> int
    decreases cards.len(),
{
    if cards.len() == 0 {
        0
    } else {
        count_suit(cards.drop_last(), s) + if suit_val(cards.last().suit) == s {
            1int
        } else {
            0int
        }
    }
}

/// Number of cards in `cards` with rank ordinal `v` and suit ordinal `s`.
pub open spec fn count_rank_in_suit(cards: Seq<Card>, v: int, s: int) -> int
    decreases cards.len(),
{
    if cards.len() == 0 {
        0
    } else {
        count_rank_in_suit(cards.drop_last(), v, s) + if rank_val(cards.last().rank) == v
            && suit_val(cards.last().suit) == s {
            1int
        } else {
            0int
        }
    }
}

/// The thirteen per-rank counts of a card sequence, indexed by rank ordinal.
pub open spec fn counts_of(cards: Seq<Card>) -> Seq<int> {
    Seq::new(13, |v: int| count_rank(cards, v))
}

/// The four per-suit counts of a card sequence, indexed by suit ordinal.
pub open spec fn suit_counts_of(cards: Seq<Card>) -> Seq<int> {
    Seq::new(4, |s: int| count_suit(cards, s))
}

/// The thirteen per-rank counts among the cards of one suit.
pub open spec fn suit_rank_counts(cards: Seq<Card>, s: int) -> Seq<int> {
    Seq::new(13, |v: int| count_rank_in_suit(cards, v, s))
}

/// A `Vec<usize>` of counts, read as a mathematical sequence of integers.
pub open spec fn ints(c: Seq<usize>) -> Seq<int> {
    Seq::new(c.len(), |i: int| c[i] as int)
}

proof fn lemma_count_rank_push(s: Seq<Card>, c: Card, v: int)
    ensures
        count_rank(s.push(c), v) == count_rank(s, v) + (if rank_val(c.rank) == v {
            1int
        } else {
            0int
        }),
{
    assert(s.push(c).drop_last() =~= s);
}

proof fn lemma_count_suit_push(s: Seq<Card>, c: Card, su: int)
    ensures
        count_suit(s.push(c), su) == count_suit(s, su) + (if suit_val(c.suit) == su {
            1int
        } else {
            0int
        }),
{
    assert(s.push(c).drop_last() =~= s);
}

proof fn lemma_count_rank_in_suit_push(s: Seq<Card>, c: Card, v: int, su: int)
    ensures
        count_rank_in_suit(s.push(c), v, su) == count_rank_in_suit(s, v, su) + (if rank_val(c.rank)
            == v && suit_val(c.suit) == su {
            1int
        } else {
            0int
        }),
{
    assert(s.push(c).drop_last() =~= s);
}

proof fn lemma_count_rank_le_len(s: Seq<Card>, v: int)
    ensures
        0 <= count_rank(s, v) <= s.len(),
    decreases s.len(),
{
    if s.len() > 0 {
        lemma_count_rank_le_len(s.drop_last(), v);
    }
}

proof fn lemma_count_suit_le_len(s: Seq<Card>, su: int)
    ensures
        0 <= count_suit(s, su) <= s.len(),
    decreases s.len(),
{
    if s.len() > 0 {
        lemma_count_suit_le_len(s.drop_last(), su);
    }
}

proof fn lemma_count_rank_in_suit_le_len(s: Seq<Card>, v: int, su: int)
    ensures
        0 <= count_rank_in_suit(s, v, su) <= s.len(),
    decreases s.len(),
{
    if s.len() > 0 {
        lemma_count_rank_in_suit_le_len(s.drop_last(), v, su);
    }
}

// ------------------------------------------------------------------
// Searches over a table of counts
// ------------------------------------------------------------------

/// Highest ordinal below `n` whose count is exactly `k`, or -1.
pub open spec fn top_with_count(c: Seq<int>, n: int, k: int) -> int
    decreases n,
{
    if n <= 0 {
        -1
    } else if c[n - 1] == k {
        n - 1
    } else {
        top_with_count(c, n - 1, k)
    }
}

/// Highest ordinal below `n` whose count is 2 or 3, or -1. When a full house
/// is assembled, a second three of a kind is as good as a pair.
pub open spec fn top_pairlike(c: Seq<int>, n: int) -> int
    decreases n,
{
    if n <= 0 {
        -1
    } else if c[n - 1] == 2 || c[n - 1] == 3 {
        n - 1
    } else {
        top_pairlike(c, n - 1)
    }
}

/// Number of ordinals below `n` whose count is exactly `k`.
pub open spec fn num_with_count(c: Seq<int>, n: int, k: int) -> int
    decreases n,
{
    if n <= 0 {
        0
    } else {
        num_with_count(c, n - 1, k) + if c[n - 1] == k {
            1int
        } else {
            0int
        }
    }
}

/// Ordinal of the `j`-th highest card (0-based, with multiplicity) among the
/// counts below `n`, or -1 when fewer than `j + 1` cards are counted.
pub open spec fn nth_rank_from(c: Seq<int>, n: int, j: int) -> int
    decreases n,
{
    if n <= 0 {
        -1
    } else if j < c[n - 1] {
        n - 1
    } else {
        nth_rank_from(c, n - 1, j - c[n - 1])
    }
}

/// The counts with the (up to three) given ordinals erased; -1 erases nothing.
pub open spec fn zeroed(c: Seq<int>, e1: int, e2: int, e3: int) -> Seq<int> {
    Seq::new(
        c.len(),
        |i: int|
            if i == e1 || i == e2 || i == e3 {
                0
            } else {
                c[i]
            },
    )
}

/// Highest straight whose top ordinal is at most `h`, or -1.
pub open spec fn straight_top_from(c: Seq<int>, h: int) -> int
    decreases h,
{
    if h < 4 {
        -1
    } else if c[h] > 0 && c[h - 1] > 0 && c[h - 2] > 0 && c[h - 3] > 0 && c[h - 4] > 0 {
        h
    } else {
        straight_top_from(c, h - 1)
    }
}

/// Ace, Two, Three, Four and Five are all present: the wheel.
pub open spec fn wheel_present(c: Seq<int>) -> bool {
    c[0] > 0 && c[1] > 0 && c[2] > 0 && c[3] > 0 && c[12] > 0
}

/// Top ordinal of the straight a rank-count table contains, or -1. The best
/// straight wins: the wheel, reported as a Five-high straight, counts only
/// when no run of five consecutive ranks is present, since any such run
/// outranks it.
pub open spec fn straight_high(c: Seq<int>) -> int {
    if straight_top_from(c, 12) >= 0 {
        straight_top_from(c, 12)
    } else if wheel_present(c) {
        3
    } else {
        -1
    }
}

/// First suit ordinal at or after `s` with at least five cards, or -1.
pub open spec fn flush_suit_from(cards: Seq<Card>, s: int) -> int
    decreases 4 - s,
{
    if s >= 4 {
        -1
    } else if count_suit(cards, s) >= 5 {
        s
    } else {
        flush_suit_from(cards, s + 1)
    }
}

/// First suit ordinal at or after `s` holding five or more cards that include
/// a straight, or -1.
pub open spec fn sflush_suit_from(cards: Seq<Card>, s: int) -> int
    decreases 4 - s,
{
    if s >= 4 {
        -1
    } else if count_suit(cards, s) >= 5 && straight_high(suit_rank_counts(cards, s)) >= 0 {
        s
    } else {
        sflush_suit_from(cards, s + 1)
    }
}

// ------------------------------------------------------------------
// What each detector yields
// ------------------------------------------------------------------

/// Straight flush carried by the first qualifying suit, if any.
pub open spec fn sflush_spec(cards: Seq<Card>) -> Option<Hand> {
    let s = sflush_suit_from(cards, 0);
    if s >= 0 {
        Some(Hand::StraightFlush(rank_of(straight_high(suit_rank_counts(cards, s)))))
    } else {
        None
    }
}

/// Four of a kind: the highest rank counted exactly four times, with the best
/// remaining card as the kicker.
pub open spec fn four_spec(rc: Seq<int>) -> Option<Hand> {
    let q = top_with_count(rc, 13, 4);
    if q >= 0 {
        Some(Hand::FourOfAKind(rank_of(q), rank_of(nth_rank_from(zeroed(rc, q, -1, -1), 13, 0))))
    } else {
        None
    }
}

/// Full house: the highest rank counted three times, paired with the highest
/// other rank counted two or three times.
pub open spec fn fullhouse_spec(rc: Seq<int>) -> Option<Hand> {
    let t = top_with_count(rc, 13, 3);
    if t >= 0 {
        let p = top_pairlike(zeroed(rc, t, -1, -1), 13);
        if p >= 0 {
            Some(Hand::FullHouse(rank_of(t), rank_of(p)))
        } else {
            None
        }
    } else {
        None
    }
}

/// Flush carried by the first suit with five or more cards, if any; the
/// payload is the highest rank in that suit.
pub open spec fn flush_spec(cards: Seq<Card>) -> Option<Hand> {
    let s = flush_suit_from(cards, 0);
    if s >= 0 {
        Some(Hand::Flush(rank_of(nth_rank_from(suit_rank_counts(cards, s), 13, 0))))
    } else {
        None
    }
}

/// Straight over the whole rank-count table, if any.
pub open spec fn straight_opt_spec(rc: Seq<int>) -> Option<Hand> {
    let h = straight_high(rc);
    if h >= 0 {
        Some(Hand::Straight(rank_of(h)))
    } else {
        None
    }
}

/// Three of a kind: the highest rank counted three times, with the two best
/// remaining cards as kickers.
pub open spec fn trips_spec(rc: Seq<int>) -> Option<Hand> {
    let t = top_with_count(rc, 13, 3);
    if t >= 0 {
        let z = zeroed(rc, t, -1, -1);
        Some(
            Hand::ThreeOfAKind(
                rank_of(t),
                rank_of(nth_rank_from(z, 13, 0)),
                rank_of(nth_rank_from(z, 13, 1)),
            ),
        )
    } else {
        None
    }
}

/// One, two or three ranks counted exactly twice make a Pair or TwoPair; with
/// three pairs the two highest are kept and the third pair's rank may serve
/// as the kicker when it beats every remaining single card.
pub open spec fn pairs_opt_spec(rc: Seq<int>) -> Option<Hand> {
    let np = num_with_count(rc, 13, 2);
    if np == 3 {
        let p1 = top_with_count(rc, 13, 2);
        let p2 = top_with_count(zeroed(rc, p1, -1, -1), 13, 2);
        let p3 = top_with_count(zeroed(rc, p1, p2, -1), 13, 2);
        let s = nth_rank_from(zeroed(rc, p1, p2, p3), 13, 0);
        let kick = if s > p3 {
            s
        } else {
            p3
        };
        Some(Hand::TwoPair(rank_of(p1), rank_of(p2), rank_of(kick)))
    } else if np == 2 {
        let p1 = top_with_count(rc, 13, 2);
        let p2 = top_with_count(zeroed(rc, p1, -1, -1), 13, 2);
        Some(
            Hand::TwoPair(
                rank_of(p1),
                rank_of(p2),
                rank_of(nth_rank_from(zeroed(rc, p1, p2, -1), 13, 0)),
            ),
        )
    } else if np == 1 {
        let p1 = top_with_count(rc, 13, 2);
        let z = zeroed(rc, p1, -1, -1);
        Some(
            Hand::Pair(
                rank_of(p1),
                rank_of(nth_rank_from(z, 13, 0)),
                rank_of(nth_rank_from(z, 13, 1)),
                rank_of(nth_rank_from(z, 13, 2)),
            ),
        )
    } else {
        None
    }
}

/// The five best cards by rank, with multiplicity.
pub open spec fn high_card_spec(rc: Seq<int>) -> Hand {
    Hand::HighCard(
        rank_of(nth_rank_from(rc, 13, 0)),
        rank_of(nth_rank_from(rc, 13, 1)),
        rank_of(nth_rank_from(rc, 13, 2)),
        rank_of(nth_rank_from(rc, 13, 3)),
        rank_of(nth_rank_from(rc, 13, 4)),
    )
}

// ------------------------------------------------------------------
// Building the count tables
// ------------------------------------------------------------------

fn zeros13() -> (z: Vec<usize>)
    ensures
        z@.len() == 13,
        forall|i: int| 0 <= i < 13 ==> z@[i] == 0usize,
{
    let mut z: Vec<usize> = Vec::new();
    let mut i: usize = 0;
    while i < 13
        invariant
            i <= 13,
            z@.len() == i,
            forall|k: int| 0 <= k < i ==> z@[k] == 0usize,
        decreases 13 - i,
    {
        z.push(0);
        i = i + 1;
    }
    z
}

#[verifier::loop_isolation(false)]
fn rank_counts_vec(cards: &Vec<Card>) -> (rc: Vec<usize>)
    ensures
        rc@.len() == 13,
        ints(rc@) == counts_of(cards@),
{
    let mut rc = zeros13();
    let mut j: usize = 0;
    while j < cards.len()
        invariant
            j <= cards@.len(),
            rc@.len() == 13,
            forall|v: int| 0 <= v < 13 ==> rc@[v] as int == count_rank(cards@.take(j as int), v),
        decreases cards@.len() - j,
    {
        let c = cards[j];
        let ri = rank_index(c.rank) as usize;
        proof {
            let pre = cards@.take(j as int);
            assert(cards@.take(j as int + 1) =~= pre.push(cards@[j as int]));
            assert forall|v: int| 0 <= v < 13 implies #[trigger] count_rank(
                cards@.take(j as int + 1),
                v,
            ) == count_rank(pre, v) + (if rank_val(cards@[j as int].rank) == v {
                1int
            } else {
                0int
            }) by {
                lemma_count_rank_push(pre, cards@[j as int], v);
            }
            lemma_count_rank_le_len(pre, ri as int);
        }
        rc[ri] = rc[ri] + 1;
        j = j + 1;
    }
    proof {
        assert(cards@.take(cards@.len() as int) =~= cards@);
        assert(ints(rc@) =~= counts_of(cards@));
    }
    rc
}

#[verifier::loop_isolation(false)]
fn count_suit_exec(cards: &Vec<Card>, s: u8) -> (n: usize)
    ensures
        n as int == count_suit(cards@, s as int),
{
    let mut n: usize = 0;
    let mut j: usize = 0;
    while j < cards.len()
        invariant
            j <= cards@.len(),
            n as int == count_suit(cards@.take(j as int), s as int),
        decreases cards@.len() - j,
    {
        let c = cards[j];
        proof {
            let pre = cards@.take(j as int);
            assert(cards@.take(j as int + 1) =~= pre.push(cards@[j as int]));
            lemma_count_suit_push(pre, cards@[j as int], s as int);
            lemma_count_suit_le_len(pre, s as int);
        }
        if suit_index(c.suit) == s {
            n = n + 1;
        }
        j = j + 1;
    }
    proof {
        assert(cards@.take(cards@.len() as int) =~= cards@);
    }
    n
}

#[verifier::loop_isolation(false)]
fn suit_rank_vec(cards: &Vec<Card>, s: u8) -> (rc: Vec<usize>)
    ensures
        rc@.len() == 13,
        ints(rc@) == suit_rank_counts(cards@, s as int),
{
    let mut rc = zeros13();
    let mut j: usize = 0;
    while j < cards.len()
        invariant
            j <= cards@.len(),
            rc@.len() == 13,
            forall|v: int|
                0 <= v < 13 ==> rc@[v] as int == count_rank_in_suit(
                    cards@.take(j as int),
                    v,
                    s as int,
                ),
        decreases cards@.len() - j,
    {
        let c = cards[j];
        let ri = rank_index(c.rank) as usize;
        proof {
            let pre = cards@.take(j as int);
            assert(cards@.take(j as int + 1) =~= pre.push(cards@[j as int]));
            assert forall|v: int| 0 <= v < 13 implies #[trigger] count_rank_in_suit(
                cards@.take(j as int + 1),
                v,
                s as int,
            ) == count_rank_in_suit(pre, v, s as int) + (if rank_val(cards@[j as int].rank) == v
                && suit_val(cards@[j as int].suit) == s as int {
                1int
            } else {
                0int
            }) by {
                lemma_count_rank_in_suit_push(pre, cards@[j as int], v, s as int);
            }
            lemma_count_rank_in_suit_le_len(pre, ri as int, s as int);
        }
        if suit_index(c.suit) == s {
            rc[ri] = rc[ri] + 1;
        }
        j = j + 1;
    }
    proof {
        assert(cards@.take(cards@.len() as int) =~= cards@);
        assert(ints(rc@) =~= suit_rank_counts(cards@, s as int));
    }
    rc
}

// ------------------------------------------------------------------
// Searching the count tables
// ------------------------------------------------------------------

#[verifier::loop_isolation(false)]
fn find_top_with_count(c: &Vec<usize>, k: usize) -> (r: i8)
    requires
        c@.len() == 13,
    ensures
        r as int == top_with_count(ints(c@), 13, k as int),
        -1 <= r < 13,
{
    let mut i: usize = 13;
    while i > 0
        invariant
            i <= 13,
            top_with_count(ints(c@), 13, k as int) == top_with_count(ints(c@), i as int, k as int),
        decreases i,
    {
        if c[i - 1] == k {
            return (i - 1) as i8;
        }
        i = i - 1;
    }
    -1
}

#[verifier::loop_isolation(false)]
fn find_top_pairlike(c: &Vec<usize>) -> (r: i8)
    requires
        c@.len() == 13,
    ensures
        r as int == top_pairlike(ints(c@), 13),
        -1 <= r < 13,
{
    let mut i: usize = 13;
    while i > 0
        invariant
            i <= 13,
            top_pairlike(ints(c@), 13) == top_pairlike(ints(c@), i as int),
        decreases i,
    {
        if c[i - 1] == 2 || c[i - 1] == 3 {
            return (i - 1) as i8;
        }
        i = i - 1;
    }
    -1
}

#[verifier::loop_isolation(false)]
fn count_pairs(c: &Vec<usize>) -> (n: usize)
    requires
        c@.len() == 13,
    ensures
        n as int == num_with_count(ints(c@), 13, 2),
{
    let mut n: usize = 0;
    let mut i: usize = 0;
    while i < 13
        invariant
            i <= 13,
            n <= i,
            n as int == num_with_count(ints(c@), i as int, 2),
        decreases 13 - i,
    {
        if c[i] == 2 {
            n = n + 1;
        }
        i = i + 1;
    }
    n
}

#[verifier::loop_isolation(false)]
fn find_nth(c: &Vec<usize>, j: usize) -> (r: i8)
    requires
        c@.len() == 13,
    ensures
        r as int == nth_rank_from(ints(c@), 13, j as int),
        -1 <= r < 13,
{
    let mut i: usize = 13;
    let mut jj: usize = j;
    while i > 0
        invariant
            i <= 13,
            nth_rank_from(ints(c@), 13, j as int) == nth_rank_from(ints(c@), i as int, jj as int),
        decreases i,
    {
        if jj < c[i - 1] {
            return (i - 1) as i8;
        }
        jj = jj - c[i - 1];
        i = i - 1;
    }
    -1
}

#[verifier::loop_isolation(false)]
fn zeroed_vec(c: &Vec<usize>, e1: i8, e2: i8, e3: i8) -> (z: Vec<usize>)
    requires
        c@.len() == 13,
    ensures
        z@.len() == 13,
        ints(z@) == zeroed(ints(c@), e1 as int, e2 as int, e3 as int),
{
    let mut z: Vec<usize> = Vec::new();
    let mut i: usize = 0;
    while i < 13
        invariant
            i <= 13,
            z@.len() == i,
            forall|v: int|
                0 <= v < i ==> z@[v] as int == zeroed(ints(c@), e1 as int, e2 as int, e3 as int)[v],
        decreases 13 - i,
    {
        let vi = i as i8;
        if vi == e1 || vi == e2 || vi == e3 {
            z.push(0);
        } else {
            z.push(c[i]);
        }
        i = i + 1;
    }
    proof {
        assert(ints(z@) =~= zeroed(ints(c@), e1 as int, e2 as int, e3 as int));
    }
    z
}

#[verifier::loop_isolation(false)]
fn find_straight(c: &Vec<usize>) -> (r: i8)
    requires
        c@.len() == 13,
    ensures
        r as int == straight_high(ints(c@)),
        -1 <= r <= 12,
{
    let mut h: usize = 12;
    while h >= 4
        invariant
            3 <= h <= 12,
            straight_top_from(ints(c@), 12) == straight_top_from(ints(c@), h as int),
        decreases h,
    {
        if c[h] > 0 && c[h - 1] > 0 && c[h - 2] > 0 && c[h - 3] > 0 && c[h - 4] > 0 {
            return h as i8;
        }
        h = h - 1;
    }
    if c[0] > 0 && c[1] > 0 && c[2] > 0 && c[3] > 0 && c[12] > 0 {
        return 3;
    }
    -1
}

// ------------------------------------------------------------------
// The category detectors
// ------------------------------------------------------------------

#[verifier::loop_isolation(false)]
fn is_straight_flush(cards: &Vec<Card>) -> (r: Option<Hand>)
    ensures
        r == sflush_spec(cards@),
{
    let mut s: u8 = 0;
    while s < 4
        invariant
            s <= 4,
            sflush_suit_from(cards@, 0) == sflush_suit_from(cards@, s as int),
        decreases 4 - s,
    {
        let n = count_suit_exec(cards, s);
        if n >= 5 {
            let sc = suit_rank_vec(cards, s);
            let high = find_straight(&sc);
            if high >= 0 {
                return Some(Hand::StraightFlush(rank_from_ord(high)));
            }
        }
        s = s + 1;
    }
    None
}

fn is_four_of_a_kind(rc: &Vec<usize>) -> (r: Option<Hand>)
    requires
        rc@.len() == 13,
    ensures
        r == four_spec(ints(rc@)),
{
    let q = find_top_with_count(rc, 4);
    if q >= 0 {
        let z = zeroed_vec(rc, q, -1, -1);
        let k = find_nth(&z, 0);
        Some(Hand::FourOfAKind(rank_from_ord(q), rank_from_ord(k)))
    } else {
        None
    }
}

fn is_full_house(rc: &Vec<usize>) -> (r: Option<Hand>)
    requires
        rc@.len() == 13,
    ensures
        r == fullhouse_spec(ints(rc@)),
{
    let t = find_top_with_count(rc, 3);
    if t >= 0 {
        let z = zeroed_vec(rc, t, -1, -1);
        let p = find_top_pairlike(&z);
        if p >= 0 {
            return Some(Hand::FullHouse(rank_from_ord(t), rank_from_ord(p)));
        }
    }
    None
}

#[verifier::loop_isolation(false)]
fn is_flush(cards: &Vec<Card>) -> (r: Option<Hand>)
    ensures
        r == flush_spec(cards@),
{
    let mut s: u8 = 0;
    while s < 4
        invariant
            s <= 4,
            flush_suit_from(cards@, 0) == flush_suit_from(cards@, s as int),
        decreases 4 - s,
    {
        let n = count_suit_exec(cards, s);
        if n >= 5 {
            let sc = suit_rank_vec(cards, s);
            let top = find_nth(&sc, 0);
            return Some(Hand::Flush(rank_from_ord(top)));
        }
        s = s + 1;
    }
    None
}

fn is_straight(rc: &Vec<usize>) -> (r: Option<Hand>)
    requires
        rc@.len() == 13,
    ensures
        r == straight_opt_spec(ints(rc@)),
{
    let h = find_straight(rc);
    if h >= 0 {
        Some(Hand::Straight(rank_from_ord(h)))
    } else {
        None
    }
}

fn is_three_of_a_kind(rc: &Vec<usize>) -> (r: Option<Hand>)
    requires
        rc@.len() == 13,
    ensures
        r == trips_spec(ints(rc@)),
{
    let t = find_top_with_count(rc, 3);
    if t >= 0 {
        let z = zeroed_vec(rc, t, -1, -1);
        let k1 = find_nth(&z, 0);
        let k2 = find_nth(&z, 1);
        Some(Hand::ThreeOfAKind(rank_from_ord(t), rank_from_ord(k1), rank_from_ord(k2)))
    } else {
        None
    }
}

fn is_pairs(rc: &Vec<usize>) -> (r: Option<Hand>)
    requires
        rc@.len() == 13,
    ensures
        r == pairs_opt_spec(ints(rc@)),
{
    let np = count_pairs(rc);
    if np == 3 {
        let p1 = find_top_with_count(rc, 2);
        let z1 = zeroed_vec(rc, p1, -1, -1);
        let p2 = find_top_with_count(&z1, 2);
        let z2 = zeroed_vec(rc, p1, p2, -1);
        let p3 = find_top_with_count(&z2, 2);
        let z3 = zeroed_vec(rc, p1, p2, p3);
        let s = find_nth(&z3, 0);
        let kick = if s > p3 {
            s
        } else {
            p3
        };
        Some(Hand::TwoPair(rank_from_ord(p1), rank_from_ord(p2), rank_from_ord(kick)))
    } else if np == 2 {
        let p1 = find_top_with_count(rc, 2);
        let z1 = zeroed_vec(rc, p1, -1, -1);
        let p2 = find_top_with_count(&z1, 2);
        let z2 = zeroed_vec(rc, p1, p2, -1);
        let k = find_nth(&z2, 0);
        Some(Hand::TwoPair(rank_from_ord(p1), rank_from_ord(p2), rank_from_ord(k)))
    } else if np == 1 {
        let p1 = find_top_with_count(rc, 2);
        let z = zeroed_vec(rc, p1, -1, -1);
        let k1 = find_nth(&z, 0);
        let k2 = find_nth(&z, 1);
        let k3 = find_nth(&z, 2);
        Some(Hand::Pair(rank_from_ord(p1), rank_from_ord(k1), rank_from_ord(k2), rank_from_ord(k3)))
    } else {
        None
    }
}

/// Classifies a set of at least five cards into the best hand it contains,
/// consulting the detectors from the strongest category down.
pub fn calculate_hand(cards: &Vec<Card>) -> (h: Hand)
    requires
        cards@.len() >= 5,
    ensures
        h == eval_spec(cards@),
{
    proof {
        reveal(eval_spec);
    }
    let rc = rank_counts_vec(cards);
    if let Some(hand) = is_straight_flush(cards) {
        if hand == Hand::StraightFlush(Rank::Ace) {
            return Hand::RoyalFlush;
        } else {
            return hand;
        }
    } else if let Some(hand) = is_four_of_a_kind(&rc) {
        return hand;
    } else if let Some(hand) = is_full_house(&rc) {
        return hand;
    } else if let Some(hand) = is_flush(cards) {
        return hand;
    } else if let Some(hand) = is_straight(&rc) {
        return hand;
    } else if let Some(hand) = is_three_of_a_kind(&rc) {
        return hand;
    } else if let Some(hand) = is_pairs(&rc) {
        return hand;
    }
    let k1 = find_nth(&rc, 0);
    let k2 = find_nth(&rc, 1);
    let k3 = find_nth(&rc, 2);
    let k4 = find_nth(&rc, 3);
    let k5 = find_nth(&rc, 4);
    Hand::HighCard(
        rank_from_ord(k1),
        rank_from_ord(k2),
        rank_from_ord(k3),
        rank_from_ord(k4),
        rank_from_ord(k5),
    )
}

/// The hand a card sequence evaluates to: the detectors are consulted from
/// the strongest category down, and the first that matches decides. An
/// Ace-high straight flush is promoted to a royal flush.
#[verifier::opaque]
pub open spec fn eval_spec(cards: Seq<Card>) -> Hand {
    let rc = counts_of(cards);
    match sflush_spec(cards) {
        Some(h) => if h == Hand::StraightFlush(Rank::Ace) {
            Hand::RoyalFlush
        } else {
            h
        },
        None => match four_spec(rc) {
            None => match fullhouse_spec(rc) {
                None => match flush_spec(cards) {
                    None => match straight_opt_spec(rc) {
                        None => match trips_spec(rc) {
                            None => match pairs_opt_spec(rc) {
                                None => high_card_spec(rc),
                                Some(h) => h,
                            },
                            Some(h) => h,
                        },
                        Some(h) => h,
                    },
                    Some(h) => h,
                },
                Some(h) => h,
            },
            Some(h) => h,
        },
    }
}

} // verus!
