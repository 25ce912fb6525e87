//! Card model: ranks, suits, cards, and the betting streets.
use core::cmp::Ordering;
use vstd::prelude::*;

verus! {

/// Number of private cards each player holds.
pub const HOLE_SIZE: usize = 2;
/// Number of shared community cards.
pub const TABLE_SIZE: usize = 5;
/// Number of cards in a poker hand.
pub const HAND_SIZE: usize = 5;
/// Number of cards in a full deck.
pub const DECK_SIZE: usize = 52;

#[derive(Copy, Clone, Debug, PartialEq, Eq, PartialOrd, Ord, Hash, Structural)]
pub enum Rank {
    Two,
    Three,
    Four,
    Five,
    Six,
    Seven,
    Eight,
    Nine,
    Ten,
    Jack,
    Queen,
    King,
    Ace,
}

#[derive(Copy, Clone, Debug, PartialEq, Eq, PartialOrd, Ord, Hash, Structural)]
pub enum Suit {
    Spades,
    Hearts,
    Diamonds,
    Clubs,
}

/// Ordinal of a rank in the total order Two < ... < Ace, as 0 <= v <= 12.
pub open spec fn rank_val(r: Rank) -> int {
    match r {
        Rank::Two => 0,
        Rank::Three => 1,
        Rank::Four => 2,
        Rank::Five => 3,
        Rank::Six => 4,
        Rank::Seven => 5,
        Rank::Eight => 6,
        Rank::Nine => 7,
        Rank::Ten => 8,
        Rank::Jack => 9,
        Rank::Queen => 10,
        Rank::King => 11,
        Rank::Ace => 12,
    }
}

/// The rank with ordinal `v`; out-of-range ordinals map to Ace.
pub open spec fn rank_of(v: int) -> Rank {
    if v == 0 {
        Rank::Two
    } else if v == 1 {
        Rank::Three
    } else if v == 2 {
        Rank::Four
    } else if v == 3 {
        Rank::Five
    } else if v == 4 {
        Rank::Six
    } else if v == 5 {
        Rank::Seven
    } else if v == 6 {
        Rank::Eight
    } else if v == 7 {
        Rank::Nine
    } else if v == 8 {
        Rank::Ten
    } else if v == 9 {
        Rank::Jack
    } else if v == 10 {
        Rank::Queen
    } else if v == 11 {
        Rank::King
    } else {
        Rank::Ace
    }
}

pub broadcast proof fn lemma_rank_val_bounds(r: Rank)
    ensures
        0 <= #[trigger] rank_val(r) <= 12,
{
}

pub broadcast proof fn lemma_rank_of_val(r: Rank)
    ensures
        rank_of(#[trigger] rank_val(r)) == r,
{
}

/// Ordinal of a suit, in the fixed declaration order, as 0 <= v <= 3.
pub open spec fn suit_val(s: Suit) -> int {
    match s {
        Suit::Spades => 0,
        Suit::Hearts => 1,
        Suit::Diamonds => 2,
        Suit::Clubs => 3,
    }
}

/// The suit with ordinal `v`; out-of-range ordinals map to Clubs.
pub open spec fn suit_of(v: int) -> Suit {
    if v == 0 {
        Suit::Spades
    } else if v == 1 {
        Suit::Hearts
    } else if v == 2 {
        Suit::Diamonds
    } else {
        Suit::Clubs
    }
}

pub fn rank_index(r: Rank) -> (v: u8)
    ensures
        v as int == rank_val(r),
{
    match r {
        Rank::Two => 0,
        Rank::Three => 1,
        Rank::Four => 2,
        Rank::Five => 3,
        Rank::Six => 4,
        Rank::Seven => 5,
        Rank::Eight => 6,
        Rank::Nine => 7,
        Rank::Ten => 8,
        Rank::Jack => 9,
        Rank::Queen => 10,
        Rank::King => 11,
        Rank::Ace => 12,
    }
}

pub fn rank_from_index(v: u8) -> (r: Rank)
    ensures
        r == rank_of(v as int),
{
    match v {
        0 => Rank::Two,
        1 => Rank::Three,
        2 => Rank::Four,
        3 => Rank::Five,
        4 => Rank::Six,
        5 => Rank::Seven,
        6 => Rank::Eight,
        7 => Rank::Nine,
        8 => Rank::Ten,
        9 => Rank::Jack,
        10 => Rank::Queen,
        11 => Rank::King,
        _ => Rank::Ace,
    }
}

/// Like `rank_from_index`, but accepts the -1 sentinel that rank searches
/// return when nothing qualifies; it maps to Ace as `rank_of` does.
pub fn rank_from_ord(v: i8) -> (r: Rank)
    ensures
        r == rank_of(v as int),
{
    match v {
        0 => Rank::Two,
        1 => Rank::Three,
        2 => Rank::Four,
        3 => Rank::Five,
        4 => Rank::Six,
        5 => Rank::Seven,
        6 => Rank::Eight,
        7 => Rank::Nine,
        8 => Rank::Ten,
        9 => Rank::Jack,
        10 => Rank::Queen,
        11 => Rank::King,
        _ => Rank::Ace,
    }
}

pub fn suit_index(s: Suit) -> (v: u8)
    ensures
        v as int == suit_val(s),
{
    match s {
        Suit::Spades => 0,
        Suit::Hearts => 1,
        Suit::Diamonds => 2,
        Suit::Clubs => 3,
    }
}

pub fn suit_from_index(v: u8) -> (s: Suit)
    ensures
        s == suit_of(v as int),
{
    match v {
        0 => Suit::Spades,
        1 => Suit::Hearts,
        2 => Suit::Diamonds,
        _ => Suit::Clubs,
    }
}

#[derive(Copy, Clone, Debug, PartialEq, Eq, Structural)]
pub enum Round {
    PreFlop,
    Flop,
    Turn,
    River,
    Showdown,
}

/// The street that follows `r`; Showdown is terminal and has no successor.
pub open spec fn next_round(r: Round) -> Round {
    match r {
        Round::PreFlop => Round::Flop,
        Round::Flop => Round::Turn,
        Round::Turn => Round::River,
        Round::River => Round::Showdown,
        Round::Showdown => Round::Showdown,
    }
}

impl Round {
    /// Advances to the next street. Showdown is terminal: callers must not
    /// try to continue a finished game.
    pub fn next(&mut self)
        requires
            *old(self) != Round::Showdown,
        ensures
            *final(self) == next_round(*old(self)),
    {
        let new_round = match self {
            Round::PreFlop => Round::Flop,
            Round::Flop => Round::Turn,
            Round::Turn => Round::River,
            Round::River => Round::Showdown,
            Round::Showdown => Round::Showdown,
        };
        *self = new_round;
    }
}

#[derive(Copy, Clone, Debug, PartialEq, Eq, Structural)]
pub struct Card {
    pub rank: Rank,
    pub suit: Suit,
}

impl Card {
    /// Compares two cards by rank alone; suits never order cards.
    pub fn compare(&self, other: &Card) -> (r: Ordering)
        ensures
            (r == Ordering::Less <==> rank_val(self.rank) < rank_val(other.rank)),
            (r == Ordering::Equal <==> rank_val(self.rank) == rank_val(other.rank)),
            (r == Ordering::Greater <==> rank_val(self.rank) > rank_val(other.rank)),
    {
        let a = rank_index(self.rank);
        let b = rank_index(other.rank);
        if a < b {
            Ordering::Less
        } else if a == b {
            Ordering::Equal
        } else {
            Ordering::Greater
        }
    }
}

} // verus!
