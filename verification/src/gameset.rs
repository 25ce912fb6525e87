//! Players, the table, and the betting round state machine.
use rand::seq::SliceRandom;
use vstd::multiset::Multiset;
use vstd::prelude::*;

use crate::hands::{calculate_hand, eval_spec, hand_key, hand_key_exec, lemma_hand_tie_bounds, Hand};
use crate::poker::{
    next_round, rank_from_index, rank_of, rank_val, suit_from_index, suit_of, suit_val, Card,
    Round, DECK_SIZE, HOLE_SIZE, TABLE_SIZE,
};
use crate::playerinput::{Action, ActionError};

verus! {

/// Chips a freshly created player starts with.
pub const INITIAL_BALANCE: u32 = 500;

#[derive(Debug, Clone)]
pub struct Player {
    pub name: String,
    pub hole: Vec<Card>,
    pub bet: u32,
    pub is_playing: bool,
    pub folded: bool,
    pub balance: u32,
}

// ------------------------------------------------------------------
// Summing and counting over the seats
// ------------------------------------------------------------------

/// Total chips held by the players (the pot is counted separately).
pub open spec fn sum_balances(ps: Seq<Player>) -> int
    decreases ps.len(),
{
    if ps.len() == 0 {
        0
    } else {
        sum_balances(ps.drop_last()) + ps.last().balance
    }
}

/// Number of seats below `n` that are still playing and have not folded.
pub open spec fn count_in(ps: Seq<Player>, n: int) -> int
    decreases n,
{
    if n <= 0 {
        0
    } else {
        count_in(ps, n - 1) + if ps[n - 1].is_playing && !ps[n - 1].folded {
            1int
        } else {
            0int
        }
    }
}

/// Some seat is still playing.
pub open spec fn has_playing(ps: Seq<Player>) -> bool {
    exists|i: int| 0 <= i < ps.len() && (#[trigger] ps[i]).is_playing
}

/// Lowest seat index at or after `i` that is still playing, or -1.
pub open spec fn first_playing_from(ps: Seq<Player>, i: int) -> int
    decreases ps.len() - i,
{
    if i < 0 || i >= ps.len() {
        -1
    } else if ps[i].is_playing {
        i
    } else {
        first_playing_from(ps, i + 1)
    }
}

proof fn lemma_sum_balances_nonneg(ps: Seq<Player>)
    ensures
        sum_balances(ps) >= 0,
    decreases ps.len(),
{
    if ps.len() > 0 {
        lemma_sum_balances_nonneg(ps.drop_last());
    }
}

proof fn lemma_balance_le_sum(ps: Seq<Player>, i: int)
    requires
        0 <= i < ps.len(),
    ensures
        ps[i].balance <= sum_balances(ps),
    decreases ps.len(),
{
    if i == ps.len() - 1 {
        lemma_sum_balances_nonneg(ps.drop_last());
    } else {
        lemma_balance_le_sum(ps.drop_last(), i);
    }
}

proof fn lemma_sum_balances_update(ps: Seq<Player>, i: int, p: Player)
    requires
        0 <= i < ps.len(),
    ensures
        sum_balances(ps.update(i, p)) == sum_balances(ps) - ps[i].balance + p.balance,
    decreases ps.len(),
{
    if i == ps.len() - 1 {
        assert(ps.update(i, p).drop_last() =~= ps.drop_last());
    } else {
        assert(ps.update(i, p).drop_last() =~= ps.drop_last().update(i, p));
        assert(ps.update(i, p).last() == ps.last());
        lemma_sum_balances_update(ps.drop_last(), i, p);
    }
}

proof fn lemma_sum_balances_remove(ps: Seq<Player>, i: int)
    requires
        0 <= i < ps.len(),
    ensures
        sum_balances(ps.remove(i)) == sum_balances(ps) - ps[i].balance,
    decreases ps.len(),
{
    if i == ps.len() - 1 {
        assert(ps.remove(i) =~= ps.drop_last());
    } else {
        assert(ps.remove(i).drop_last() =~= ps.drop_last().remove(i));
        assert(ps.remove(i).last() == ps.last());
        lemma_sum_balances_remove(ps.drop_last(), i);
    }
}

/// Rearranging the seats does not change the chips in play.
proof fn lemma_sum_balances_permutation(a: Seq<Player>, b: Seq<Player>)
    requires
        a.to_multiset() == b.to_multiset(),
    ensures
        sum_balances(a) == sum_balances(b),
    decreases a.len(),
{
    broadcast use vstd::seq_lib::group_to_multiset_ensures;

    if a.len() == 0 {
        assert(b.to_multiset().len() == 0);
        assert(b.len() == 0);
    } else {
        let x = a.last();
        assert(a[a.len() - 1] == x);
        assert(a.contains(x));
        assert(b.to_multiset().count(x) > 0);
        assert(b.contains(x));
        let j = choose|j: int| 0 <= j < b.len() && b[j] == x;
        assert(a.drop_last() =~= a.remove(a.len() - 1));
        assert(a.drop_last().to_multiset() =~= a.to_multiset().remove(x));
        assert(b.remove(j).to_multiset() =~= b.to_multiset().remove(x));
        lemma_sum_balances_permutation(a.drop_last(), b.remove(j));
        lemma_sum_balances_remove(b, j);
    }
}

/// Rearranging a sequence rearranges any pointwise projection of it.
proof fn lemma_map_to_multiset<A, B>(a: Seq<A>, b: Seq<A>, f: spec_fn(A) -> B)
    requires
        a.to_multiset() == b.to_multiset(),
    ensures
        a.map_values(f).to_multiset() == b.map_values(f).to_multiset(),
    decreases a.len(),
{
    broadcast use vstd::seq_lib::group_to_multiset_ensures;

    if a.len() == 0 {
        assert(b.to_multiset().len() == 0);
        assert(b.len() == 0);
        assert(a.map_values(f) =~= b.map_values(f));
    } else {
        let x = a.last();
        assert(a[a.len() - 1] == x);
        assert(a.contains(x));
        assert(b.to_multiset().count(x) > 0);
        assert(b.contains(x));
        let j = choose|j: int| 0 <= j < b.len() && b[j] == x;
        assert(a.drop_last() =~= a.remove(a.len() - 1));
        assert(a.drop_last().to_multiset() =~= a.to_multiset().remove(x));
        assert(b.remove(j).to_multiset() =~= b.to_multiset().remove(x));
        lemma_map_to_multiset(a.drop_last(), b.remove(j), f);
        // relate the mapped sequences to their shortened forms
        assert(a.map_values(f).drop_last() =~= a.drop_last().map_values(f));
        assert(b.remove(j).map_values(f) =~= b.map_values(f).remove(j));
        assert(a.map_values(f) =~= a.map_values(f).drop_last().push(f(x)));
        assert(a.map_values(f).to_multiset() =~= a.map_values(f).drop_last().to_multiset().insert(
            f(x),
        ));
        assert(b.map_values(f).remove(j).to_multiset() =~= b.map_values(f).to_multiset().remove(
            b.map_values(f)[j],
        ));
        assert(b.map_values(f)[j] == f(x));
        assert(b.map_values(f).to_multiset().count(f(x)) > 0) by {
            assert(b.map_values(f)[j] == f(x));
            assert(b.map_values(f).contains(f(x)));
        }
        assert(a.map_values(f).to_multiset() =~= b.map_values(f).to_multiset());
    }
}

// ------------------------------------------------------------------
// Players
// ------------------------------------------------------------------

impl Player {
    /// A fresh player with the standard starting stack, no cards and no bet.
    pub fn new(name: String) -> (p: Player)
        ensures
            p.name == name,
            p.hole@.len() == 0,
            p.bet == 0,
            p.is_playing,
            !p.folded,
            p.balance == INITIAL_BALANCE,
    {
        Player {
            name,
            hole: Vec::new(),
            bet: 0,
            is_playing: true,
            folded: false,
            balance: INITIAL_BALANCE,
        }
    }

    /// The best hand this player can make from their hole cards together
    /// with the community cards on the table.
    pub fn get_hand(&self, game: &Game) -> (h: Hand)
        requires
            self.hole@.len() + game.table@.len() >= 5,
        ensures
            h == eval_spec(self.hole@ + game.table@),
    {
        let cards = combined_cards(&self.hole, &game.table);
        calculate_hand(&cards)
    }

    /// Clears the per-hand state: cards go back, the street bet and the
    /// folded flag are reset. Name, stack and participation are kept.
    pub fn reset(&mut self)
        ensures
            final(self).hole@.len() == 0,
            final(self).bet == 0,
            !final(self).folded,
            final(self).name == old(self).name,
            final(self).is_playing == old(self).is_playing,
            final(self).balance == old(self).balance,
    {
        self.hole = Vec::new();
        self.bet = 0;
        self.folded = false;
    }
}

// ------------------------------------------------------------------
// The game
// ------------------------------------------------------------------

pub struct Game {
    pub players: Vec<Player>,
    pub table: Vec<Card>,
    pub deck: Vec<Card>,
    pub turn: (Round, usize),
    pub pot: u32,
    pub bet: u32,
    pub ended: bool,
    pub last: Option<usize>,
    pub looped: bool,
}

impl Game {
    /// Well-formed game state: every verified step preserves this.
    pub open spec fn wf(self) -> bool {
        &&& 1 <= self.players@.len() <= 23
        &&& (self.turn.1 as int) < self.players@.len()
        &&& self.table@.len() == TABLE_SIZE as int
        &&& forall|i: int|
            0 <= i < self.players@.len() ==> (#[trigger] self.players@[i]).hole@.len()
                == HOLE_SIZE as int
        &&& forall|i: int|
            0 <= i < self.players@.len() ==> (#[trigger] self.players@[i]).bet <= self.bet
        &&& (!self.ended ==> self.pot as int + sum_balances(self.players@) <= u32::MAX as int)
        &&& (!self.ended ==> self.turn.0 != Round::Showdown)
        &&& (match self.last {
            Some(i) => (i as int) < self.players@.len(),
            None => true,
        })
    }
}

// ------------------------------------------------------------------
// Shuffling
// ------------------------------------------------------------------

/// Relies on rand's `SliceRandom::shuffle` (driven by `rand::rng()`): a
/// Fisher-Yates pass that only swaps elements within the slice, so the new
/// contents are a rearrangement of the old and nothing more can be promised
/// of the order.
#[verifier::external_body]
fn shuffle_vec<T>(v: &mut Vec<T>)
    ensures
        final(v)@.len() == old(v)@.len(),
        final(v)@.to_multiset() == old(v)@.to_multiset(),
{
    v.shuffle(&mut rand::rng());
}

/// One player's hole cards followed by the community cards.
fn combined_cards(hole: &Vec<Card>, table: &Vec<Card>) -> (cards: Vec<Card>)
    ensures
        cards@ == hole@ + table@,
{
    let mut cards: Vec<Card> = Vec::new();
    let mut i: usize = 0;
    while i < hole.len()
        invariant
            i <= hole@.len(),
            cards@ =~= hole@.take(i as int),
        decreases hole@.len() - i,
    {
        cards.push(hole[i]);
        i = i + 1;
    }
    let mut j: usize = 0;
    while j < table.len()
        invariant
            j <= table@.len(),
            cards@ =~= hole@ + table@.take(j as int),
        decreases table@.len() - j,
    {
        cards.push(table[j]);
        j = j + 1;
    }
    proof {
        assert(cards@ =~= hole@ + table@);
    }
    cards
}

// ------------------------------------------------------------------
// Acting on a turn
// ------------------------------------------------------------------

/// Why the given action is illegal in state `g`, if it is; the acting seat
/// is the current turn pointer.
pub open spec fn action_error(g: Game, a: Action) -> Option<ActionError> {
    let p = g.players@[g.turn.1 as int];
    match a {
        Action::Check => if p.bet < g.bet {
            Some(ActionError::CheckNotAllowed)
        } else {
            None
        },
        Action::Raise(amount) => if amount <= g.bet {
            Some(ActionError::RaiseTooLow)
        } else if amount - p.bet > p.balance {
            Some(ActionError::InsufficientFunds)
        } else {
            None
        },
        Action::Call => if p.balance < g.bet - p.bet {
            Some(ActionError::InsufficientFunds)
        } else {
            None
        },
        Action::Fold => None,
    }
}

/// What `apply_action` answers: the error above, or success.
pub open spec fn apply_result(g: Game, a: Action) -> Result<(), ActionError> {
    match action_error(g, a) {
        Some(e) => Err(e),
        None => Ok(()),
    }
}

/// The acting player after calling up to the table bet.
pub open spec fn called_player(p: Player, table_bet: u32) -> Player {
    Player { bet: table_bet, balance: (p.balance - (table_bet - p.bet)) as u32, ..p }
}

/// The acting player after raising the table bet to `amount`.
pub open spec fn raised_player(p: Player, amount: u32) -> Player {
    Player { bet: amount, balance: (p.balance - (amount - p.bet)) as u32, ..p }
}

/// The acting player after folding.
pub open spec fn folded_player(p: Player) -> Player {
    Player { folded: true, ..p }
}

/// The parts of the state no action may touch.
pub open spec fn same_shell(a: Game, b: Game) -> bool {
    &&& a.table@ == b.table@
    &&& a.deck@ == b.deck@
    &&& a.turn == b.turn
    &&& a.ended == b.ended
}

impl Game {
    /// Applies one action of the player whose turn it is. An illegal action
    /// is answered with its reason and changes nothing, so the caller can ask
    /// the player again. A legal action moves chips between the player's
    /// balance and the pot as the rules say; a raise records the raiser as
    /// the new completion marker. The turn pointer is not advanced here.
    pub fn apply_action(&mut self, action: Action) -> (r: Result<(), ActionError>)
        requires
            old(self).wf(),
            !old(self).ended,
            old(self).players@[old(self).turn.1 as int].is_playing,
            !old(self).players@[old(self).turn.1 as int].folded,
        ensures
            final(self).wf(),
            r == apply_result(*old(self), action),
            r is Err ==> *final(self) == *old(self),
            r is Ok ==> same_shell(*final(self), *old(self)),
            r is Ok ==> ({
                let t = old(self).turn.1 as int;
                let p = old(self).players@[t];
                match action {
                    Action::Check => *final(self) == *old(self),
                    Action::Call => {
                        &&& final(self).players@ == old(self).players@.update(
                            t,
                            called_player(p, old(self).bet),
                        )
                        &&& final(self).pot == old(self).pot + old(self).bet - p.bet
                        &&& final(self).bet == old(self).bet
                        &&& final(self).last == old(self).last
                        &&& final(self).looped == old(self).looped
                    },
                    Action::Raise(amount) => {
                        &&& final(self).players@ == old(self).players@.update(
                            t,
                            raised_player(p, amount),
                        )
                        &&& final(self).pot == old(self).pot + amount - p.bet
                        &&& final(self).bet == amount
                        &&& final(self).last == Some(old(self).turn.1)
                        &&& final(self).looped == old(self).looped
                    },
                    Action::Fold => {
                        &&& final(self).players@ == old(self).players@.update(t, folded_player(p))
                        &&& final(self).pot == old(self).pot
                        &&& final(self).bet == old(self).bet
                        &&& final(self).last == old(self).last
                        &&& final(self).looped == old(self).looped
                    },
                }
            }),
            final(self).pot as int + sum_balances(final(self).players@) == old(self).pot as int
                + sum_balances(old(self).players@),
            final(self).players@.len() == old(self).players@.len(),
            cards_in_play(*final(self)) == cards_in_play(*old(self)),
    {
        let t = self.turn.1;
        let ghost pre = *self;
        match action {
            Action::Check => {
                if self.players[t].bet < self.bet {
                    Err(ActionError::CheckNotAllowed)
                } else {
                    Ok(())
                }
            },
            Action::Raise(amount) => {
                if amount <= self.bet {
                    Err(ActionError::RaiseTooLow)
                } else {
                    let diff = amount - self.players[t].bet;
                    if diff > self.players[t].balance {
                        Err(ActionError::InsufficientFunds)
                    } else {
                        proof {
                            lemma_balance_le_sum(pre.players@, t as int);
                        }
                        self.bet = amount;
                        self.last = Some(t);
                        let bal = self.players[t].balance;
                        self.players[t].bet = amount;
                        self.players[t].balance = bal - diff;
                        self.pot = self.pot + diff;
                        proof {
                            assert(self.players@ =~= pre.players@.update(
                                t as int,
                                raised_player(pre.players@[t as int], amount),
                            ));
                            lemma_sum_balances_update(
                                pre.players@,
                                t as int,
                                raised_player(pre.players@[t as int], amount),
                            );
                            lemma_holes_ms_congruent(
                                self.players@,
                                pre.players@,
                                pre.players@.len() as int,
                            );
                            assert(cards_in_play(*self) == cards_in_play(pre));
                        }
                        Ok(())
                    }
                }
            },
            Action::Call => {
                let diff = self.bet - self.players[t].bet;
                if self.players[t].balance < diff {
                    Err(ActionError::InsufficientFunds)
                } else {
                    proof {
                        lemma_balance_le_sum(pre.players@, t as int);
                    }
                    let bal = self.players[t].balance;
                    self.players[t].bet = self.bet;
                    self.players[t].balance = bal - diff;
                    self.pot = self.pot + diff;
                    proof {
                        assert(self.players@ =~= pre.players@.update(
                            t as int,
                            called_player(pre.players@[t as int], pre.bet),
                        ));
                        lemma_sum_balances_update(
                            pre.players@,
                            t as int,
                            called_player(pre.players@[t as int], pre.bet),
                        );
                        lemma_holes_ms_congruent(
                            self.players@,
                            pre.players@,
                            pre.players@.len() as int,
                        );
                        assert(cards_in_play(*self) == cards_in_play(pre));
                    }
                    Ok(())
                }
            },
            Action::Fold => {
                self.players[t].folded = true;
                proof {
                    assert(self.players@ =~= pre.players@.update(
                        t as int,
                        folded_player(pre.players@[t as int]),
                    ));
                    lemma_sum_balances_update(
                        pre.players@,
                        t as int,
                        folded_player(pre.players@[t as int]),
                    );
                    lemma_holes_ms_congruent(
                        self.players@,
                        pre.players@,
                        pre.players@.len() as int,
                    );
                    assert(cards_in_play(*self) == cards_in_play(pre));
                }
                Ok(())
            },
        }
    }
}

// ------------------------------------------------------------------
// Showdown
// ------------------------------------------------------------------

/// The hand seat `i` holds against the given table.
pub open spec fn hand_at(ps: Seq<Player>, table: Seq<Card>, i: int) -> Hand {
    eval_spec(ps[i].hole@ + table)
}

/// The best hand key among the playing seats below `n`, or -1 if none plays.
pub open spec fn max_key_upto(ps: Seq<Player>, table: Seq<Card>, n: int) -> int
    decreases n,
{
    if n <= 0 {
        -1
    } else {
        let rest = max_key_upto(ps, table, n - 1);
        if ps[n - 1].is_playing && hand_key(hand_at(ps, table, n - 1)) > rest {
            hand_key(hand_at(ps, table, n - 1))
        } else {
            rest
        }
    }
}

/// Seat `i` plays and no playing seat holds a better hand.
pub open spec fn is_winner_in(ps: Seq<Player>, table: Seq<Card>, i: int) -> bool {
    &&& 0 <= i < ps.len()
    &&& ps[i].is_playing
    &&& hand_key(hand_at(ps, table, i)) == max_key_upto(ps, table, ps.len() as int)
}

/// Number of winning seats below `n`.
pub open spec fn num_winners_upto(ps: Seq<Player>, table: Seq<Card>, n: int) -> int
    decreases n,
{
    if n <= 0 {
        0
    } else {
        num_winners_upto(ps, table, n - 1) + if is_winner_in(ps, table, n - 1) {
            1int
        } else {
            0int
        }
    }
}

/// A player with their share of the pot credited.
pub open spec fn credited(p: Player, share: int) -> Player {
    Player { balance: (p.balance + share) as u32, ..p }
}

/// Each winner's share: the pot split evenly by integer division. A remainder
/// that does not divide is not distributed.
pub open spec fn pot_share(ps: Seq<Player>, table: Seq<Card>, pot: u32) -> int {
    pot as int / num_winners_upto(ps, table, ps.len() as int)
}

proof fn lemma_max_key_ge(ps: Seq<Player>, table: Seq<Card>, j: int, n: int)
    requires
        0 <= j < n,
        ps[j].is_playing,
    ensures
        hand_key(hand_at(ps, table, j)) <= max_key_upto(ps, table, n),
    decreases n,
{
    if j < n - 1 {
        lemma_max_key_ge(ps, table, j, n - 1);
    }
}

proof fn lemma_max_key_pos(ps: Seq<Player>, table: Seq<Card>, n: int)
    requires
        max_key_upto(ps, table, n) >= 0,
    ensures
        exists|k: int| 0 <= k < n && (#[trigger] ps[k]).is_playing,
    decreases n,
{
    if n > 0 {
        if ps[n - 1].is_playing {
            assert(ps[n - 1].is_playing);
        } else {
            lemma_max_key_pos(ps, table, n - 1);
        }
    }
}

proof fn lemma_max_key_achieved(ps: Seq<Player>, table: Seq<Card>, n: int)
    requires
        exists|k: int| 0 <= k < n && (#[trigger] ps[k]).is_playing,
    ensures
        exists|k: int|
            0 <= k < n && (#[trigger] ps[k]).is_playing && hand_key(hand_at(ps, table, k))
                == max_key_upto(ps, table, n),
    decreases n,
{
    if n > 0 {
        let key_last = hand_key(hand_at(ps, table, n - 1));
        let rest = max_key_upto(ps, table, n - 1);
        if ps[n - 1].is_playing && key_last > rest {
            assert(ps[n - 1].is_playing && hand_key(hand_at(ps, table, n - 1)) == max_key_upto(
                ps,
                table,
                n,
            ));
        } else {
            assert(exists|k: int| 0 <= k < n - 1 && (#[trigger] ps[k]).is_playing) by {
                let w = choose|k: int| 0 <= k < n && (#[trigger] ps[k]).is_playing;
                if w == n - 1 {
                    lemma_hand_tie_bounds(hand_at(ps, table, n - 1));
                    assert(rest >= key_last >= 0);
                    lemma_max_key_pos(ps, table, n - 1);
                }
            }
            lemma_max_key_achieved(ps, table, n - 1);
        }
    }
}

/// The winners of a showdown are exactly the playing seats that no playing
/// seat beats.
pub proof fn lemma_winner_characterization(ps: Seq<Player>, table: Seq<Card>, i: int)
    requires
        0 <= i < ps.len(),
        has_playing(ps),
    ensures
        is_winner_in(ps, table, i) <==> (ps[i].is_playing && forall|j: int|
            0 <= j < ps.len() && (#[trigger] ps[j]).is_playing ==> hand_key(hand_at(ps, table, j))
                <= hand_key(hand_at(ps, table, i))),
{
    let n = ps.len() as int;
    if is_winner_in(ps, table, i) {
        assert forall|j: int| 0 <= j < n && (#[trigger] ps[j]).is_playing implies hand_key(
            hand_at(ps, table, j),
        ) <= hand_key(hand_at(ps, table, i)) by {
            lemma_max_key_ge(ps, table, j, n);
        }
    }
    if ps[i].is_playing && (forall|j: int|
        0 <= j < ps.len() && (#[trigger] ps[j]).is_playing ==> hand_key(hand_at(ps, table, j))
            <= hand_key(hand_at(ps, table, i))) {
        lemma_max_key_ge(ps, table, i, n);
        lemma_max_key_achieved(ps, table, n);
        let k = choose|k: int|
            0 <= k < n && (#[trigger] ps[k]).is_playing && hand_key(hand_at(ps, table, k))
                == max_key_upto(ps, table, n);
        assert(hand_key(hand_at(ps, table, k)) <= hand_key(hand_at(ps, table, i)));
    }
}

proof fn lemma_num_winners_nonneg(ps: Seq<Player>, table: Seq<Card>, n: int)
    ensures
        num_winners_upto(ps, table, n) >= 0,
    decreases n,
{
    if n > 0 {
        lemma_num_winners_nonneg(ps, table, n - 1);
    }
}

proof fn lemma_num_winners_monotone(ps: Seq<Player>, table: Seq<Card>, m: int, n: int)
    requires
        m <= n,
    ensures
        num_winners_upto(ps, table, m) <= num_winners_upto(ps, table, n),
    decreases n - m,
{
    if m < n {
        lemma_num_winners_monotone(ps, table, m, n - 1);
    }
}

/// The best hand key among the playing seats, and one seat that holds it.
#[verifier::loop_isolation(false)]
#[verifier::rlimit(100)]
fn find_best_seat(players: &Vec<Player>, table: &Vec<Card>) -> (r: (i64, usize))
    requires
        1 <= players@.len() <= 23,
        table@.len() == TABLE_SIZE as int,
        forall|i: int|
            0 <= i < players@.len() ==> (#[trigger] players@[i]).hole@.len() == HOLE_SIZE as int,
        has_playing(players@),
    ensures
        r.0 as int == max_key_upto(players@, table@, players@.len() as int),
        r.1 < players@.len(),
        players@[r.1 as int].is_playing,
        hand_key(hand_at(players@, table@, r.1 as int)) == r.0 as int,
{
    let n = players.len();
    let mut best: i64 = -1;
    let mut best_idx: usize = 0;
    let mut found = false;
    let mut i: usize = 0;
    while i < n
        invariant
            i <= n,
            best as int == max_key_upto(players@, table@, i as int),
            found ==> (best_idx < i && players@[best_idx as int].is_playing && hand_key(
                hand_at(players@, table@, best_idx as int),
            ) == best as int),
            !found ==> forall|k: int| 0 <= k < i ==> !(#[trigger] players@[k]).is_playing,
            !found ==> best == -1,
        decreases n - i,
    {
        if players[i].is_playing {
            let cards = combined_cards(&players[i].hole, table);
            let h = calculate_hand(&cards);
            let key = hand_key_exec(&h) as i64;
            proof {
                lemma_hand_tie_bounds(hand_at(players@, table@, i as int));
            }
            if key > best {
                best = key;
                best_idx = i;
                found = true;
            }
        }
        i = i + 1;
    }
    proof {
        if !found {
            assert(false);
        }
    }
    (best, best_idx)
}

/// How many playing seats tie the best hand key.
#[verifier::loop_isolation(false)]
#[verifier::rlimit(100)]
fn count_winning_seats(players: &Vec<Player>, table: &Vec<Card>, best: i64, best_idx: usize) -> (w:
    usize)
    requires
        1 <= players@.len() <= 23,
        table@.len() == TABLE_SIZE as int,
        forall|i: int|
            0 <= i < players@.len() ==> (#[trigger] players@[i]).hole@.len() == HOLE_SIZE as int,
        best as int == max_key_upto(players@, table@, players@.len() as int),
        best_idx < players@.len(),
        players@[best_idx as int].is_playing,
        hand_key(hand_at(players@, table@, best_idx as int)) == best as int,
    ensures
        w as int == num_winners_upto(players@, table@, players@.len() as int),
        1 <= w <= players@.len(),
{
    let n = players.len();
    let mut w: usize = 0;
    let mut i: usize = 0;
    while i < n
        invariant
            i <= n,
            w as int == num_winners_upto(players@, table@, i as int),
            w <= i,
            i > best_idx ==> w >= 1,
        decreases n - i,
    {
        if players[i].is_playing {
            let cards = combined_cards(&players[i].hole, table);
            let h = calculate_hand(&cards);
            let key = hand_key_exec(&h) as i64;
            if key == best {
                w = w + 1;
            }
        }
        i = i + 1;
    }
    w
}

impl Game {
    /// Resolves the pot: every playing seat whose hand ties the best hand is
    /// a winner and is credited an even integer share of the pot, then the
    /// game is marked ended. Nothing else changes; in particular the pot
    /// field keeps its value, and the undistributed remainder of an uneven
    /// split stays there by design.
    #[verifier::loop_isolation(false)]
    #[verifier::rlimit(100)]
    fn end_game(&mut self)
        requires
            1 <= old(self).players@.len() <= 23,
            old(self).table@.len() == TABLE_SIZE as int,
            forall|i: int|
                0 <= i < old(self).players@.len() ==> (#[trigger] old(self).players@[i]).hole@.len()
                    == HOLE_SIZE as int,
            has_playing(old(self).players@),
            old(self).pot as int + sum_balances(old(self).players@) <= u32::MAX as int,
        ensures
            final(self).ended,
            final(self).players@.len() == old(self).players@.len(),
            forall|i: int|
                0 <= i < old(self).players@.len() ==> final(self).players@[i] == (if is_winner_in(
                    old(self).players@,
                    old(self).table@,
                    i,
                ) {
                    credited(
                        old(self).players@[i],
                        pot_share(old(self).players@, old(self).table@, old(self).pot),
                    )
                } else {
                    old(self).players@[i]
                }),
            final(self).pot == old(self).pot,
            final(self).bet == old(self).bet,
            final(self).turn == old(self).turn,
            final(self).table@ == old(self).table@,
            final(self).deck@ == old(self).deck@,
            final(self).last == old(self).last,
            final(self).looped == old(self).looped,
            sum_balances(final(self).players@) <= sum_balances(old(self).players@) + old(
                self,
            ).pot,
            num_winners_upto(old(self).players@, old(self).table@, old(self).players@.len() as int)
                >= 1,
            cards_in_play(*final(self)) == cards_in_play(*old(self)),
    {
        let ghost pre = *self;
        let n = self.players.len();
        let (best, best_idx) = find_best_seat(&self.players, &self.table);
        let w = count_winning_seats(&self.players, &self.table, best, best_idx);
        let share: u32 = self.pot / (w as u32);
        proof {
            vstd::arithmetic::div_mod::lemma_fundamental_div_mod(pre.pot as int, w as int);
            assert(w as int * (share as int) <= pre.pot as int);
        }
        // third pass: credit every winner
        let ghost gshare = share as int;
        let mut i3: usize = 0;
        while i3 < n
            invariant
                i3 <= n,
                n == self.players@.len(),
                self.table@ == pre.table@,
                self.deck@ == pre.deck@,
                self.turn == pre.turn,
                self.pot == pre.pot,
                self.bet == pre.bet,
                self.ended == pre.ended,
                self.last == pre.last,
                self.looped == pre.looped,
                best as int == max_key_upto(pre.players@, pre.table@, n as int),
                w as int == num_winners_upto(pre.players@, pre.table@, n as int),
                1 <= w <= n,
                gshare == share as int,
                w as int * gshare <= pre.pot as int,
                pre.pot as int + sum_balances(pre.players@) <= u32::MAX as int,
                forall|k: int| i3 <= k < n ==> self.players@[k] == pre.players@[k],
                forall|k: int|
                    0 <= k < i3 ==> self.players@[k] == (if is_winner_in(
                        pre.players@,
                        pre.table@,
                        k,
                    ) {
                        credited(pre.players@[k], gshare)
                    } else {
                        pre.players@[k]
                    }),
                sum_balances(self.players@) == sum_balances(pre.players@) + num_winners_upto(
                    pre.players@,
                    pre.table@,
                    i3 as int,
                ) * gshare,
                forall|k: int|
                    0 <= k < pre.players@.len() ==> (#[trigger] pre.players@[k]).hole@.len()
                        == HOLE_SIZE as int,
            decreases n - i3,
        {
            let ghost s0 = self.players@;
            let ghost w_pre = num_winners_upto(pre.players@, pre.table@, i3 as int);
            if self.players[i3].is_playing {
                let cards = combined_cards(&self.players[i3].hole, &self.table);
                let h = calculate_hand(&cards);
                let key = hand_key_exec(&h) as i64;
                if key == best {
                    proof {
                        lemma_num_winners_nonneg(pre.players@, pre.table@, i3 as int);
                        lemma_num_winners_monotone(pre.players@, pre.table@, i3 as int + 1, n as int);
                        assert((w_pre + 1) * gshare <= w as int * gshare) by (nonlinear_arith)
                            requires
                                w_pre + 1 <= w as int,
                                gshare >= 0,
                        ;
                        assert((w_pre + 1) * gshare == w_pre * gshare + gshare) by (nonlinear_arith);
                        lemma_balance_le_sum(s0, i3 as int);
                        lemma_sum_balances_nonneg(pre.players@);
                    }
                    let bal = self.players[i3].balance;
                    self.players[i3].balance = bal + share;
                    proof {
                        assert(self.players@ =~= s0.update(
                            i3 as int,
                            credited(pre.players@[i3 as int], gshare),
                        ));
                        lemma_sum_balances_update(
                            s0,
                            i3 as int,
                            credited(pre.players@[i3 as int], gshare),
                        );
                    }
                }
            }
            i3 = i3 + 1;
        }
        self.ended = true;
        proof {
            lemma_holes_ms_congruent(self.players@, pre.players@, pre.players@.len() as int);
            assert(cards_in_play(*self) == cards_in_play(pre));
            lemma_num_winners_nonneg(pre.players@, pre.table@, n as int);
            assert(w as int * gshare >= 0) by (nonlinear_arith)
                requires
                    w as int >= 0,
                    gshare >= 0,
            ;
        }
    }
}

// ------------------------------------------------------------------
// Advancing the turn
// ------------------------------------------------------------------

/// The seat the turn pointer moves to.
pub open spec fn next_ptr(g: Game) -> int {
    ((g.turn.1 + 1) as int) % (g.players@.len() as int)
}

/// The seat whose turn closes the street: the last raiser if there was one,
/// otherwise the first seat still playing.
pub open spec fn marker(g: Game) -> int {
    match g.last {
        Some(i) => i as int,
        None => first_playing_from(g.players@, 0),
    }
}

/// The street is complete once the pointer lands on the marker seat after a
/// full pass.
pub open spec fn street_done(g: Game) -> bool {
    next_ptr(g) == marker(g) && g.looped
}

/// A seat at the end of a street: the street bet is collected back to zero
/// and a fold becomes elimination from the rest of the hand.
pub open spec fn cleared_player(p: Player) -> Player {
    Player { bet: 0, is_playing: p.is_playing && !p.folded, folded: false, ..p }
}

/// Every seat cleared for the next street.
pub open spec fn cleared_players(ps: Seq<Player>) -> Seq<Player> {
    ps.map_values(|p: Player| cleared_player(p))
}

/// A completed street ends the hand when the next street would be the
/// showdown, or when a single seat is left in the hand.
pub open spec fn hand_over(g: Game) -> bool {
    ||| next_round(g.turn.0) == Round::Showdown
    ||| count_in(cleared_players(g.players@), g.players@.len() as int) == 1
}

impl Game {
    /// Moves the turn pointer one seat onward and closes the street when the
    /// pointer returns to the marker seat. Closing a street collects the
    /// street bets, eliminates the seats that folded, and advances to the
    /// next street; the hand ends at once — paying the pot out as `end_game`
    /// says — when that street is the showdown or only one seat remains.
    /// A game with no playing seat left is a broken state the caller must
    /// not reach.
    #[verifier::loop_isolation(false)]
    pub fn advance(&mut self)
        requires
            old(self).wf(),
            !old(self).ended,
            has_playing(old(self).players@),
            street_done(*old(self)) && hand_over(*old(self)) ==> has_playing(
                cleared_players(old(self).players@),
            ),
        ensures
            final(self).wf(),
            final(self).players@.len() == old(self).players@.len(),
            final(self).turn.1 as int == next_ptr(*old(self)),
            final(self).table@ == old(self).table@,
            final(self).deck@ == old(self).deck@,
            final(self).last == old(self).last,
            final(self).pot == old(self).pot,
            cards_in_play(*final(self)) == cards_in_play(*old(self)),
            final(self).ended ==> sum_balances(final(self).players@) <= sum_balances(
                old(self).players@,
            ) + old(self).pot,
            !final(self).ended ==> final(self).pot as int + sum_balances(final(self).players@)
                == old(self).pot as int + sum_balances(old(self).players@),
            !street_done(*old(self)) ==> ({
                &&& final(self).players@ == old(self).players@
                &&& final(self).turn.0 == old(self).turn.0
                &&& final(self).bet == old(self).bet
                &&& !final(self).ended
                &&& final(self).looped == (old(self).looped || next_ptr(*old(self)) == marker(
                    *old(self),
                ))
            }),
            street_done(*old(self)) && !hand_over(*old(self)) ==> ({
                &&& final(self).players@ == cleared_players(old(self).players@)
                &&& final(self).turn.0 == next_round(old(self).turn.0)
                &&& final(self).bet == 0
                &&& !final(self).ended
                &&& final(self).looped
            }),
            street_done(*old(self)) && hand_over(*old(self)) ==> ({
                let cp = cleared_players(old(self).players@);
                let share = pot_share(cp, old(self).table@, old(self).pot);
                &&& final(self).ended
                &&& final(self).turn.0 == next_round(old(self).turn.0)
                &&& final(self).bet == 0
                &&& !final(self).looped
                &&& forall|i: int|
                    0 <= i < cp.len() ==> final(self).players@[i] == (if is_winner_in(
                        cp,
                        old(self).table@,
                        i,
                    ) {
                        credited(cp[i], share)
                    } else {
                        cp[i]
                    })
            }),
    {
        let ghost pre = *self;
        let len = self.players.len();
        let t2 = (self.turn.1 + 1) % len;
        self.turn = (self.turn.0, t2);
        // the marker seat
        let m: usize;
        match self.last {
            Some(idx) => {
                m = idx;
            },
            None => {
                let mut mi: usize = 0;
                while mi < len && !self.players[mi].is_playing
                    invariant
                        mi <= len,
                        len == pre.players@.len(),
                        self.players@ == pre.players@,
                        forall|k: int| 0 <= k < mi ==> !(#[trigger] pre.players@[k]).is_playing,
                        first_playing_from(pre.players@, 0) == first_playing_from(
                            pre.players@,
                            mi as int,
                        ),
                    decreases len - mi,
                {
                    mi = mi + 1;
                }
                proof {
                    if mi == len {
                        let ghost k = choose|k: int|
                            0 <= k < pre.players@.len() && pre.players@[k].is_playing;
                        assert(false);
                    }
                }
                m = mi;
            },
        }
        proof {
            assert(m as int == marker(pre));
        }
        if t2 == m {
            if self.looped {
                // the street is complete
                self.bet = 0;
                self.looped = false;
                let mut r = self.turn.0;
                r.next();
                self.turn = (r, t2);
                // collect street bets; a fold becomes elimination
                let mut ci: usize = 0;
                while ci < len
                    invariant
                        ci <= len,
                        len == pre.players@.len(),
                        self.players@.len() == len,
                        self.table@ == pre.table@,
                        self.deck@ == pre.deck@,
                        self.turn == (next_round(pre.turn.0), t2),
                        self.pot == pre.pot,
                        self.bet == 0,
                        self.ended == pre.ended,
                        self.last == pre.last,
                        !self.looped,
                        forall|k: int|
                            0 <= k < ci ==> self.players@[k] == cleared_player(pre.players@[k]),
                        forall|k: int| ci <= k < len ==> self.players@[k] == pre.players@[k],
                        sum_balances(self.players@) == sum_balances(pre.players@),
                    decreases len - ci,
                {
                    let ghost s0 = self.players@;
                    self.players[ci].bet = 0;
                    if self.players[ci].folded {
                        self.players[ci].is_playing = false;
                        self.players[ci].folded = false;
                    }
                    proof {
                        assert(self.players@ =~= s0.update(
                            ci as int,
                            cleared_player(pre.players@[ci as int]),
                        ));
                        lemma_sum_balances_update(
                            s0,
                            ci as int,
                            cleared_player(pre.players@[ci as int]),
                        );
                    }
                    ci = ci + 1;
                }
                proof {
                    assert(self.players@ =~= cleared_players(pre.players@));
                    lemma_holes_ms_congruent(self.players@, pre.players@, pre.players@.len() as int);
                    assert(cards_in_play(*self) == cards_in_play(pre));
                }
                // how many seats are still in the hand
                let mut cnt: usize = 0;
                let mut k: usize = 0;
                while k < len
                    invariant
                        k <= len,
                        len == self.players@.len(),
                        cnt <= k,
                        cnt as int == count_in(self.players@, k as int),
                    decreases len - k,
                {
                    if self.players[k].is_playing && !self.players[k].folded {
                        cnt = cnt + 1;
                    }
                    k = k + 1;
                }
                let r_now = self.turn.0;
                if r_now == Round::Showdown || cnt == 1 {
                    self.end_game();
                    return;
                }
            }
            self.looped = true;
        }
    }
}

/// The 52 distinct cards in a fixed order: four suits within each rank.
fn fresh_deck() -> (deck: Vec<Card>)
    ensures
        deck@.len() == DECK_SIZE as int,
        forall|p: int|
            0 <= p < 52 ==> deck@[p] == (Card { rank: rank_of(p / 4), suit: suit_of(p % 4) }),
{
    let mut deck: Vec<Card> = Vec::new();
    let mut p: usize = 0;
    while p < 52
        invariant
            p <= 52,
            deck@.len() == p,
            forall|q: int|
                0 <= q < p ==> deck@[q] == (Card { rank: rank_of(q / 4), suit: suit_of(q % 4) }),
        decreases 52 - p,
    {
        let rank = rank_from_index((p / 4) as u8);
        let suit = suit_from_index((p % 4) as u8);
        deck.push(Card { rank, suit });
        p = p + 1;
    }
    deck
}

// ------------------------------------------------------------------
// Starting a game
// ------------------------------------------------------------------

/// Everything about a seat except the cards it holds.
pub open spec fn seat_same(p: Player, q: Player) -> bool {
    &&& p.name == q.name
    &&& p.balance == q.balance
    &&& p.bet == q.bet
    &&& p.is_playing == q.is_playing
    &&& p.folded == q.folded
}

/// A player, sat out when the stack cannot cover two minimum bets.
pub open spec fn with_flag(p: Player, mb2: int) -> Player {
    Player { is_playing: p.is_playing && p.balance >= mb2, ..p }
}

/// The card-free face of a seat as the table sees it at the start of a hand:
/// name, stack, street bet, whether the seat can play a hand with minimum
/// bet `mb2 / 2`, and whether it has folded.
pub open spec fn seat_view(p: Player, mb2: int) -> (Seq<char>, u32, u32, bool, bool) {
    (p.name@, p.balance, p.bet, p.is_playing && p.balance >= mb2, p.folded)
}

/// The seat views of a whole table.
pub open spec fn seat_views(ps: Seq<Player>, mb2: int) -> Seq<(Seq<char>, u32, u32, bool, bool)> {
    ps.map_values(|p: Player| seat_view(p, mb2))
}

// ------------------------------------------------------------------
// Where the cards are
// ------------------------------------------------------------------

/// The hole cards of the seats below `n`, as one multiset.
pub open spec fn holes_multiset(ps: Seq<Player>, n: int) -> Multiset<Card>
    decreases n,
{
    if n <= 0 {
        Multiset::empty()
    } else {
        holes_multiset(ps, n - 1).add(ps[n - 1].hole@.to_multiset())
    }
}

/// Every card a game holds: the seats' hole cards, the community cards, and
/// the undealt deck.
pub open spec fn cards_in_play(g: Game) -> Multiset<Card> {
    holes_multiset(g.players@, g.players@.len() as int).add(g.table@.to_multiset()).add(
        g.deck@.to_multiset(),
    )
}

/// The 52 cards of a full deck, in the fixed order the dealer builds them.
pub open spec fn full_deck() -> Seq<Card> {
    Seq::new(52, |p: int| Card { rank: rank_of(p / 4), suit: suit_of(p % 4) })
}

/// The full deck holds each card exactly once. Together with `Game::new`'s
/// guarantee that the cards in play are exactly a full deck, no card is ever
/// dealt twice.
pub proof fn lemma_full_deck_distinct()
    ensures
        forall|c: Card| full_deck().to_multiset().count(c) <= 1,
{
    broadcast use vstd::seq_lib::group_to_multiset_ensures;
    broadcast use vstd::multiset::group_multiset_axioms;

    assert(full_deck().no_duplicates()) by {
        assert forall|p: int, q: int|
            0 <= p < 52 && 0 <= q < 52 && p != q implies full_deck()[p] != full_deck()[q] by {
            if full_deck()[p] == full_deck()[q] {
                assert(rank_of(p / 4) == rank_of(q / 4));
                assert(suit_of(p % 4) == suit_of(q % 4));
                assert(0 <= p / 4 < 13 && 0 <= q / 4 < 13);
                assert(rank_val(rank_of(p / 4)) == p / 4);
                assert(rank_val(rank_of(q / 4)) == q / 4);
                assert(suit_val(suit_of(p % 4)) == p % 4);
                assert(suit_val(suit_of(q % 4)) == q % 4);
                assert(p == 4 * (p / 4) + p % 4);
                assert(q == 4 * (q / 4) + q % 4);
                assert(false);
            }
        }
    }
    full_deck().lemma_multiset_has_no_duplicates();
    assert forall|c: Card| full_deck().to_multiset().count(c) <= 1 by {
        if full_deck().to_multiset().count(c) > 0 {
            assert(full_deck().to_multiset().contains(c));
        }
    }
}

proof fn lemma_holes_ms_congruent(a: Seq<Player>, b: Seq<Player>, n: int)
    requires
        n <= a.len(),
        n <= b.len(),
        forall|k: int| 0 <= k < n ==> (#[trigger] a[k]).hole@ == b[k].hole@,
    ensures
        holes_multiset(a, n) == holes_multiset(b, n),
    decreases n,
{
    if n > 0 {
        lemma_holes_ms_congruent(a, b, n - 1);
    }
}

proof fn lemma_holes_ms_update(ps: Seq<Player>, i: int, p: Player, n: int, c: Card)
    requires
        0 <= i < n <= ps.len(),
    ensures
        holes_multiset(ps.update(i, p), n).count(c) == holes_multiset(ps, n).count(c)
            - ps[i].hole@.to_multiset().count(c) + p.hole@.to_multiset().count(c),
    decreases n,
{
    broadcast use vstd::multiset::group_multiset_axioms;

    if i == n - 1 {
        lemma_holes_ms_congruent(ps.update(i, p), ps, n - 1);
    } else {
        lemma_holes_ms_update(ps, i, p, n - 1, c);
        assert(ps.update(i, p)[n - 1] == ps[n - 1]);
    }
}

proof fn lemma_holes_ms_empty(ps: Seq<Player>, n: int)
    requires
        n <= ps.len(),
        forall|k: int| 0 <= k < n ==> (#[trigger] ps[k]).hole@.len() == 0,
    ensures
        forall|c: Card| holes_multiset(ps, n).count(c) == 0,
    decreases n,
{
    broadcast use vstd::seq_lib::group_to_multiset_ensures;
    broadcast use vstd::multiset::group_multiset_axioms;

    if n > 0 {
        lemma_holes_ms_empty(ps, n - 1);
        assert forall|c: Card| holes_multiset(ps, n).count(c) == 0 by {
            assert(holes_multiset(ps, n - 1).count(c) == 0);
            assert(ps[n - 1].hole@.len() == 0);
            assert(!ps[n - 1].hole@.contains(c));
            assert(ps[n - 1].hole@.to_multiset().count(c) == 0);
            assert(holes_multiset(ps, n) == holes_multiset(ps, n - 1).add(
                ps[n - 1].hole@.to_multiset(),
            ));
        }
    }
}

impl Game {
    /// Deals two hole cards to every seat, then five community cards, all
    /// from the top of the deck.
    #[verifier::loop_isolation(false)]
    fn deal(&mut self)
        requires
            1 <= old(self).players@.len() <= 23,
            old(self).table@.len() == 0,
            old(self).deck@.len() == DECK_SIZE as int,
            forall|i: int|
                0 <= i < old(self).players@.len() ==> (#[trigger] old(self).players@[i]).hole@.len()
                    == 0,
        ensures
            final(self).players@.len() == old(self).players@.len(),
            forall|i: int|
                0 <= i < old(self).players@.len() ==> (#[trigger] final(self).players@[i]).hole@.len() == HOLE_SIZE as int,
            forall|i: int|
                0 <= i < old(self).players@.len() ==> seat_same(
                    #[trigger] final(self).players@[i],
                    old(self).players@[i],
                ),
            final(self).table@.len() == TABLE_SIZE as int,
            final(self).deck@.len() == DECK_SIZE as int - 2 * old(self).players@.len() - 5,
            sum_balances(final(self).players@) == sum_balances(old(self).players@),
            final(self).turn == old(self).turn,
            final(self).pot == old(self).pot,
            final(self).bet == old(self).bet,
            final(self).ended == old(self).ended,
            final(self).last == old(self).last,
            final(self).looped == old(self).looped,
            cards_in_play(*final(self)) == cards_in_play(*old(self)),
            final(self).deck@ == old(self).deck@.take(
                old(self).deck@.len() - 2 * old(self).players@.len() - 5,
            ),
    {
        let ghost pre = *self;
        let n = self.players.len();
        let mut i: usize = 0;
        while i < n
            invariant
                i <= n,
                self.players@.len() == n,
                self.deck@.len() == DECK_SIZE as int - 2 * (i as int),
                self.deck@ == pre.deck@.take(pre.deck@.len() - 2 * (i as int)),
                self.table@ == pre.table@,
                self.turn == pre.turn,
                self.pot == pre.pot,
                self.bet == pre.bet,
                self.ended == pre.ended,
                self.last == pre.last,
                self.looped == pre.looped,
                forall|k: int|
                    0 <= k < i ==> (#[trigger] self.players@[k]).hole@.len() == HOLE_SIZE as int
                        && seat_same(self.players@[k], pre.players@[k]),
                forall|k: int| i <= k < n ==> self.players@[k] == pre.players@[k],
                sum_balances(self.players@) == sum_balances(pre.players@),
                forall|c: Card|
                    holes_multiset(self.players@, n as int).count(c)
                        + self.deck@.to_multiset().count(c) == holes_multiset(
                        pre.players@,
                        n as int,
                    ).count(c) + pre.deck@.to_multiset().count(c),
            decreases n - i,
        {
            let ghost d0 = self.deck@;
            let c1 = self.deck.pop().unwrap();
            let c2 = self.deck.pop().unwrap();
            let ghost s0 = self.players@;
            self.players[i].hole.push(c1);
            self.players[i].hole.push(c2);
            proof {
                let pnew = self.players@[i as int];
                assert(pnew.hole@ =~= s0[i as int].hole@.push(c1).push(c2));
                assert(seat_same(pnew, s0[i as int]));
                assert(self.players@ =~= s0.update(i as int, pnew));
                lemma_sum_balances_update(s0, i as int, pnew);
                assert forall|k: int| 0 <= k < i as int + 1 implies (#[trigger] self.players@[k]).hole@.len()
                    == HOLE_SIZE as int && seat_same(self.players@[k], pre.players@[k]) by {
                    if k < i as int {
                        assert(self.players@[k] == s0[k]);
                    } else {
                        assert(self.players@[k] == pnew);
                        assert(s0[k] == pre.players@[k]);
                    }
                }
                broadcast use vstd::seq_lib::group_to_multiset_ensures;
                broadcast use vstd::multiset::group_multiset_axioms;

                let d1 = d0.subrange(0, d0.len() - 1);
                let d2 = d1.subrange(0, d1.len() - 1);
                assert(self.deck@ == d2);
                assert(d1 == d0.remove(d0.len() - 1));
                assert(d2 == d1.remove(d1.len() - 1));
                assert(d2 =~= pre.deck@.take(pre.deck@.len() - 2 * (i as int + 1)));
                assert(d1.to_multiset() =~= d0.to_multiset().remove(c1));
                assert(d2.to_multiset() =~= d1.to_multiset().remove(c2));
                assert(d0.to_multiset().count(c1) > 0) by {
                    assert(d0.contains(c1));
                }
                assert(d1.to_multiset().count(c2) > 0) by {
                    assert(d1.contains(c2));
                }
                assert(pnew.hole@.to_multiset() =~= s0[i as int].hole@.to_multiset().insert(
                    c1,
                ).insert(c2)) by {
                    assert(pnew.hole@ == s0[i as int].hole@.push(c1).push(c2));
                }
                assert forall|c: Card|
                    holes_multiset(self.players@, n as int).count(c)
                        + self.deck@.to_multiset().count(c) == holes_multiset(
                        pre.players@,
                        n as int,
                    ).count(c) + pre.deck@.to_multiset().count(c) by {
                    lemma_holes_ms_update(s0, i as int, pnew, n as int, c);
                }
            }
            i = i + 1;
        }
        let mut j: usize = 0;
        while j < TABLE_SIZE
            invariant
                j <= TABLE_SIZE,
                self.table@.len() == j,
                self.deck@.len() == DECK_SIZE as int - 2 * (n as int) - (j as int),
                self.deck@ == pre.deck@.take(pre.deck@.len() - 2 * (n as int) - (j as int)),
                self.players@.len() == n,
                self.turn == pre.turn,
                self.pot == pre.pot,
                self.bet == pre.bet,
                self.ended == pre.ended,
                self.last == pre.last,
                self.looped == pre.looped,
                forall|k: int|
                    0 <= k < n ==> (#[trigger] self.players@[k]).hole@.len() == HOLE_SIZE as int
                        && seat_same(self.players@[k], pre.players@[k]),
                sum_balances(self.players@) == sum_balances(pre.players@),
                forall|c: Card|
                    holes_multiset(self.players@, n as int).count(c)
                        + self.table@.to_multiset().count(c) + self.deck@.to_multiset().count(c)
                        == holes_multiset(pre.players@, n as int).count(c)
                        + pre.table@.to_multiset().count(c) + pre.deck@.to_multiset().count(c),
            decreases TABLE_SIZE - j,
        {
            let ghost d0 = self.deck@;
            let ghost t0 = self.table@;
            let c = self.deck.pop().unwrap();
            self.table.push(c);
            proof {
                broadcast use vstd::seq_lib::group_to_multiset_ensures;
                broadcast use vstd::multiset::group_multiset_axioms;

                assert(self.deck@ == d0.remove(d0.len() - 1));
                assert(self.deck@ =~= pre.deck@.take(
                    pre.deck@.len() - 2 * (n as int) - (j as int + 1),
                ));
                assert(self.deck@.to_multiset() =~= d0.to_multiset().remove(c));
                assert(d0.to_multiset().count(c) > 0) by {
                    assert(d0.contains(c));
                }
                assert(self.table@ == t0.push(c));
                assert(self.table@.to_multiset() =~= t0.to_multiset().insert(c));
            }
            j = j + 1;
        }
        proof {
            assert(cards_in_play(*self) =~= cards_in_play(pre)) by {
                broadcast use vstd::multiset::group_multiset_axioms;

                assert forall|c: Card| cards_in_play(*self).count(c) == cards_in_play(pre).count(
                    c,
                ) by {
                    assert(holes_multiset(self.players@, n as int).count(c)
                        + self.table@.to_multiset().count(c) + self.deck@.to_multiset().count(c)
                        == holes_multiset(pre.players@, n as int).count(c)
                        + pre.table@.to_multiset().count(c) + pre.deck@.to_multiset().count(c));
                }
            }
        }
    }

    /// Sets up one hand: on the very first hand of a session the seating
    /// order is shuffled; every seat that cannot cover two minimum bets is
    /// sat out; a fresh shuffled deck is dealt. The big blind position sets
    /// the opening bet to call at twice the minimum bet; no chips move yet.
    #[verifier::loop_isolation(false)]
    pub fn new(players: Vec<Player>, min_bet: u32, is_first_game: bool) -> (g: Game)
        requires
            1 <= players@.len() <= 23,
            min_bet <= 0x7fffffff,
            sum_balances(players@) <= u32::MAX as int,
            forall|i: int| 0 <= i < players@.len() ==> (#[trigger] players@[i]).hole@.len() == 0,
            forall|i: int| 0 <= i < players@.len() ==> (#[trigger] players@[i]).bet == 0,
        ensures
            g.wf(),
            !g.ended,
            g.turn.0 == Round::PreFlop,
            g.turn.1 == 0,
            g.pot == 0,
            g.bet == min_bet * 2,
            g.last is None,
            g.looped,
            g.players@.len() == players@.len(),
            g.table@.len() == TABLE_SIZE as int,
            g.deck@.len() == DECK_SIZE as int - 2 * players@.len() - 5,
            cards_in_play(g) == full_deck().to_multiset(),
            forall|i: int|
                0 <= i < g.players@.len() ==> (#[trigger] g.players@[i]).hole@.len()
                    == HOLE_SIZE as int,
            forall|i: int| 0 <= i < g.players@.len() ==> (#[trigger] g.players@[i]).bet == 0,
            forall|i: int|
                0 <= i < g.players@.len() ==> ((#[trigger] g.players@[i]).is_playing
                    ==> g.players@[i].balance >= min_bet * 2),
            sum_balances(g.players@) == sum_balances(players@),
            !is_first_game ==> forall|i: int|
                0 <= i < players@.len() ==> seat_same(
                    #[trigger] g.players@[i],
                    with_flag(players@[i], 2 * (min_bet as int)),
                ),
            is_first_game ==> seat_views(g.players@, 2 * (min_bet as int)).to_multiset()
                == seat_views(players@, 2 * (min_bet as int)).to_multiset(),
    {
        let mut players = players;
        let ghost input = players@;
        let ghost mb2g = 2 * (min_bet as int);
        if is_first_game {
            shuffle_vec(&mut players);
            proof {
                lemma_sum_balances_permutation(players@, input);
                lemma_map_to_multiset(players@, input, |p: Player| seat_view(p, mb2g));
                broadcast use vstd::seq_lib::group_to_multiset_ensures;

                assert forall|i: int| 0 <= i < players@.len() implies (#[trigger] players@[i]).hole@.len()
                    == 0 && players@[i].bet == 0 by {
                    assert(players@.contains(players@[i]));
                    assert(players@.to_multiset().count(players@[i]) > 0);
                    assert(input.to_multiset().count(players@[i]) > 0);
                    assert(input.contains(players@[i]));
                    let j = choose|j: int| 0 <= j < input.len() && input[j] == players@[i];
                    assert(input[j].hole@.len() == 0 && input[j].bet == 0);
                }
            }
        }
        proof {
            if !is_first_game {
                assert(players@ == input);
            }
            assert forall|k: int| 0 <= k < players@.len() implies ((#[trigger] players@[k]).hole@.len()
                == 0 && players@[k].bet == 0) by {
                if !is_first_game {
                    assert(players@[k] == input[k]);
                }
            }
        }
        let ghost shuffled = players@;
        let mb2: u32 = min_bet * 2;
        let mut fidx: usize = 0;
        while fidx < players.len()
            invariant
                fidx <= shuffled.len(),
                players@.len() == shuffled.len(),
                forall|k: int|
                    0 <= k < fidx ==> players@[k] == with_flag(#[trigger] shuffled[k], mb2 as int),
                forall|k: int| fidx <= k < shuffled.len() ==> players@[k] == shuffled[k],
                sum_balances(players@) == sum_balances(shuffled),
            decreases shuffled.len() - fidx,
        {
            let ghost s0 = players@;
            if players[fidx].balance < mb2 {
                players[fidx].is_playing = false;
            }
            proof {
                assert(players@ =~= s0.update(
                    fidx as int,
                    with_flag(shuffled[fidx as int], mb2 as int),
                ));
                lemma_sum_balances_update(
                    s0,
                    fidx as int,
                    with_flag(shuffled[fidx as int], mb2 as int),
                );
            }
            fidx = fidx + 1;
        }
        let ghost flagged = players@;
        proof {
            assert forall|k: int| 0 <= k < flagged.len() implies ((#[trigger] flagged[k]).hole@.len()
                == 0 && flagged[k].bet == 0 && (flagged[k].is_playing ==> flagged[k].balance
                >= mb2)) by {
                assert(flagged[k] == with_flag(shuffled[k], mb2 as int));
                assert(shuffled[k].hole@.len() == 0 && shuffled[k].bet == 0);
            }
        }
        let mut deck = fresh_deck();
        proof {
            assert(deck@ =~= full_deck());
        }
        shuffle_vec(&mut deck);
        let ghost deck_shuffled = deck@;
        let mut game = Game {
            players,
            table: Vec::new(),
            deck,
            turn: (Round::PreFlop, 0),
            pot: 0,
            bet: mb2,
            ended: false,
            last: None,
            looped: true,
        };
        let ghost predeal = game;
        game.deal();
        proof {
            assert(cards_in_play(predeal) =~= full_deck().to_multiset()) by {
                broadcast use vstd::seq_lib::group_to_multiset_ensures;
                broadcast use vstd::multiset::group_multiset_axioms;

                lemma_holes_ms_empty(predeal.players@, predeal.players@.len() as int);
                assert(deck_shuffled.to_multiset() == full_deck().to_multiset());
                assert forall|c: Card| cards_in_play(predeal).count(c)
                    == full_deck().to_multiset().count(c) by {
                    assert(!predeal.table@.contains(c));
                    assert(predeal.table@.to_multiset().count(c) == 0);
                    assert(holes_multiset(predeal.players@, predeal.players@.len() as int).count(c)
                        == 0);
                }
            }
            if is_first_game {
                assert(seat_views(game.players@, mb2g) =~= shuffled.map_values(
                    |p: Player| seat_view(p, mb2g),
                ));
                assert(seat_views(input, mb2g) =~= input.map_values(|p: Player| seat_view(p, mb2g)));
            }
        }
        game
    }
}

} // verus!
