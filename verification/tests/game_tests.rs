use std::cmp::Ordering::{Equal, Greater, Less};

use holdem::gameset::{Game, Player, INITIAL_BALANCE};
use holdem::hands::calculate_hand;
use holdem::hands::Hand::{Flush, Straight, ThreeOfAKind};
use holdem::playerinput::{Action, ActionError};
use holdem::poker::Rank::{
    Ace, Eight, Five, Four, Jack, King, Nine, Queen, Six, Ten, Three, Two,
};
use holdem::poker::Suit::{Clubs, Diamonds, Hearts, Spades};
use holdem::poker::{Card, Rank, Round, Suit};

fn named(name: &str, balance: u32) -> Player {
    let mut p = Player::new(String::from(name));
    p.balance = balance;
    p
}

/// A game on a chosen street with chosen cards, bypassing the dealer, so
/// tests are deterministic.
fn fixed_game(holes: Vec<(Card, Card)>, table: Vec<Card>, street: Round, pot: u32) -> Game {
    let mut players = Vec::new();
    for (i, (c1, c2)) in holes.into_iter().enumerate() {
        let mut p = named(&format!("p{}", i), INITIAL_BALANCE);
        p.hole = vec![c1, c2];
        players.push(p);
    }
    Game {
        players,
        table,
        deck: Vec::new(),
        turn: (street, 0),
        pot,
        bet: 0,
        ended: false,
        last: None,
        looped: true,
    }
}

fn card(rank: Rank, suit: Suit) -> Card {
    Card { rank, suit }
}

//
// CONSTRUCTION
//
#[test]
fn game_new_deals_the_table() {
    let players = vec![named("a", 500), named("b", 500), named("c", 500)];
    let game = Game::new(players, 5, false);
    assert_eq!(game.players.len(), 3);
    assert_eq!(game.table.len(), 5);
    assert_eq!(game.deck.len(), 52 - 2 * 3 - 5);
    assert_eq!(game.pot, 0);
    assert_eq!(game.bet, 10);
    assert!(!game.ended);
    assert!(matches!(game.turn, (Round::PreFlop, 0)));
    for p in game.players.iter() {
        assert_eq!(p.hole.len(), 2);
        assert_eq!(p.bet, 0);
        assert!(p.is_playing);
        assert!(!p.folded);
    }
}

#[test]
fn game_new_keeps_seating_after_first_hand() {
    let players = vec![named("alice", 500), named("bob", 300), named("carol", 700)];
    let game = Game::new(players, 5, false);
    assert_eq!(game.players[0].name, "alice");
    assert_eq!(game.players[1].name, "bob");
    assert_eq!(game.players[2].name, "carol");
}

#[test]
fn game_new_sits_out_short_stacks() {
    // two minimum bets are needed to play a hand
    let players = vec![named("rich", 500), named("broke", 9), named("edge", 10)];
    let game = Game::new(players, 5, false);
    assert!(game.players[0].is_playing);
    assert!(!game.players[1].is_playing);
    assert!(game.players[2].is_playing);
}

#[test]
fn game_new_deals_distinct_cards() {
    // every dealt card and the rest of the deck together are the 52 distinct
    // cards: the shuffle rearranges the deck, it never invents cards
    let players = vec![
        named("a", 500),
        named("b", 500),
        named("c", 500),
        named("d", 500),
    ];
    let game = Game::new(players, 5, true);
    let mut seen = Vec::new();
    for p in game.players.iter() {
        for c in p.hole.iter() {
            seen.push((c.rank, c.suit));
        }
    }
    for c in game.table.iter() {
        seen.push((c.rank, c.suit));
    }
    for c in game.deck.iter() {
        seen.push((c.rank, c.suit));
    }
    assert_eq!(seen.len(), 52);
    seen.sort();
    seen.dedup();
    assert_eq!(seen.len(), 52);
}

#[test]
fn game_new_shuffle_keeps_the_players() {
    let players = vec![named("alice", 400), named("bob", 300), named("carol", 700)];
    let game = Game::new(players, 5, true);
    let mut names: Vec<String> = game.players.iter().map(|p| p.name.clone()).collect();
    names.sort();
    assert_eq!(names, vec!["alice", "bob", "carol"]);
    let total: u32 = game.players.iter().map(|p| p.balance).sum();
    assert_eq!(total, 1400);
}

//
// PLAYERS
//
#[test]
fn player_new_defaults() {
    let p = Player::new(String::from("dave"));
    assert_eq!(p.name, "dave");
    assert_eq!(p.balance, INITIAL_BALANCE);
    assert_eq!(p.bet, 0);
    assert!(p.hole.is_empty());
    assert!(p.is_playing);
    assert!(!p.folded);
}

#[test]
fn player_reset_clears_hand_state() {
    let mut p = named("eve", 321);
    p.hole = vec![card(Ace, Spades), card(King, Hearts)];
    p.bet = 40;
    p.folded = true;
    p.reset();
    assert!(p.hole.is_empty());
    assert_eq!(p.bet, 0);
    assert!(!p.folded);
    assert_eq!(p.name, "eve");
    assert_eq!(p.balance, 321);
    assert!(p.is_playing);
}

#[test]
fn get_hand_reads_hole_and_table() {
    let game = fixed_game(
        vec![
            (card(Six, Hearts), card(Five, Diamonds)),
            (card(Two, Clubs), card(Two, Diamonds)),
        ],
        vec![
            card(Four, Spades),
            card(Three, Hearts),
            card(Two, Spades),
            card(King, Clubs),
            card(Nine, Diamonds),
        ],
        Round::River,
        0,
    );
    assert_eq!(game.players[0].get_hand(&game), Straight(Six));
    assert_eq!(game.players[1].get_hand(&game), ThreeOfAKind(Two, King, Nine));
}

//
// CARD AND ROUND BASICS
//
#[test]
fn card_compare_ignores_suit() {
    let a = card(Queen, Spades);
    let b = card(Queen, Hearts);
    let c = card(Jack, Clubs);
    assert_eq!(a.compare(&b), Equal);
    assert_eq!(a.compare(&c), Greater);
    assert_eq!(c.compare(&a), Less);
}

#[test]
fn round_progression() {
    let mut r = Round::PreFlop;
    r.next();
    assert_eq!(r, Round::Flop);
    r.next();
    assert_eq!(r, Round::Turn);
    r.next();
    assert_eq!(r, Round::River);
    r.next();
    assert_eq!(r, Round::Showdown);
}

//
// HAND ORDER LAWS ON CONCRETE VALUES
//
#[test]
fn wheel_is_the_lowest_straight() {
    // the wheel ranks strictly below every other straight, and a straight
    // still beats three of a kind while losing to a flush
    let wheel = Straight(Five);
    assert_eq!(wheel.compare(&Straight(Six)), Less);
    assert_eq!(wheel.compare(&Straight(Ace)), Less);
    assert_eq!(wheel.compare(&ThreeOfAKind(Ace, King, Queen)), Greater);
    assert_eq!(wheel.compare(&Flush(Two)), Less);
}

#[test]
fn tie_between_disjoint_card_sets() {
    // two card-disjoint seven-card sets whose best five cards agree rank for
    // rank evaluate to the same hand, and that hand compares Equal
    let first = vec![
        card(Ace, Spades),
        card(King, Spades),
        card(Queen, Hearts),
        card(Jack, Diamonds),
        card(Ten, Clubs),
        card(Three, Hearts),
        card(Two, Diamonds),
    ];
    let second = vec![
        card(Ace, Hearts),
        card(King, Hearts),
        card(Queen, Diamonds),
        card(Jack, Clubs),
        card(Ten, Spades),
        card(Two, Hearts),
        card(Three, Diamonds),
    ];
    let h1 = calculate_hand(&first);
    let h2 = calculate_hand(&second);
    assert_eq!(h1, Straight(Ace));
    assert_eq!(h1.compare(&h2), Equal);
}

#[test]
fn evaluation_is_repeatable() {
    let cards = vec![
        card(Nine, Spades),
        card(Nine, Hearts),
        card(Four, Diamonds),
        card(Queen, Clubs),
        card(Jack, Hearts),
        card(Two, Spades),
        card(Eight, Diamonds),
    ];
    let once = calculate_hand(&cards);
    let twice = calculate_hand(&cards);
    assert_eq!(once, twice);
}

//
// BETTING
//
#[test]
fn raise_rejected_when_balance_short() {
    // a player with balance 50 may not raise to 60; nothing changes and the
    // player is asked again
    let mut game = fixed_game(
        vec![
            (card(Ace, Spades), card(King, Hearts)),
            (card(Two, Clubs), card(Three, Diamonds)),
        ],
        vec![
            card(Four, Spades),
            card(Eight, Hearts),
            card(Ten, Spades),
            card(Jack, Clubs),
            card(Queen, Diamonds),
        ],
        Round::PreFlop,
        0,
    );
    game.players[0].balance = 50;
    game.bet = 10;
    let before_balances: Vec<u32> = game.players.iter().map(|p| p.balance).collect();
    let r = game.apply_action(Action::Raise(60));
    assert_eq!(r, Err(ActionError::InsufficientFunds));
    assert_eq!(game.pot, 0);
    assert_eq!(game.bet, 10);
    assert_eq!(game.turn, (Round::PreFlop, 0));
    let after_balances: Vec<u32> = game.players.iter().map(|p| p.balance).collect();
    assert_eq!(before_balances, after_balances);
}

#[test]
fn raise_must_exceed_table_bet() {
    let mut game = fixed_game(
        vec![
            (card(Ace, Spades), card(King, Hearts)),
            (card(Two, Clubs), card(Three, Diamonds)),
        ],
        vec![
            card(Four, Spades),
            card(Eight, Hearts),
            card(Ten, Spades),
            card(Jack, Clubs),
            card(Queen, Diamonds),
        ],
        Round::PreFlop,
        0,
    );
    game.bet = 10;
    assert_eq!(game.apply_action(Action::Raise(10)), Err(ActionError::RaiseTooLow));
    assert_eq!(game.apply_action(Action::Raise(7)), Err(ActionError::RaiseTooLow));
    assert_eq!(game.pot, 0);
}

#[test]
fn check_rejected_below_table_bet() {
    let mut game = fixed_game(
        vec![
            (card(Ace, Spades), card(King, Hearts)),
            (card(Two, Clubs), card(Three, Diamonds)),
        ],
        vec![
            card(Four, Spades),
            card(Eight, Hearts),
            card(Ten, Spades),
            card(Jack, Clubs),
            card(Queen, Diamonds),
        ],
        Round::Flop,
        0,
    );
    game.bet = 25;
    assert_eq!(game.apply_action(Action::Check), Err(ActionError::CheckNotAllowed));
    game.bet = 0;
    assert_eq!(game.apply_action(Action::Check), Ok(()));
}

#[test]
fn call_rejected_without_funds() {
    let mut game = fixed_game(
        vec![
            (card(Ace, Spades), card(King, Hearts)),
            (card(Two, Clubs), card(Three, Diamonds)),
        ],
        vec![
            card(Four, Spades),
            card(Eight, Hearts),
            card(Ten, Spades),
            card(Jack, Clubs),
            card(Queen, Diamonds),
        ],
        Round::Flop,
        0,
    );
    game.bet = 40;
    game.players[0].balance = 39;
    assert_eq!(game.apply_action(Action::Call), Err(ActionError::InsufficientFunds));
    assert_eq!(game.pot, 0);
    assert_eq!(game.players[0].balance, 39);
}

#[test]
fn raise_moves_chips_and_marks_the_raiser() {
    let mut game = fixed_game(
        vec![
            (card(Ace, Spades), card(King, Hearts)),
            (card(Two, Clubs), card(Three, Diamonds)),
        ],
        vec![
            card(Four, Spades),
            card(Eight, Hearts),
            card(Ten, Spades),
            card(Jack, Clubs),
            card(Queen, Diamonds),
        ],
        Round::Flop,
        0,
    );
    game.bet = 10;
    game.players[0].bet = 4;
    assert_eq!(game.apply_action(Action::Raise(30)), Ok(()));
    assert_eq!(game.bet, 30);
    assert_eq!(game.players[0].bet, 30);
    assert_eq!(game.players[0].balance, INITIAL_BALANCE - 26);
    assert_eq!(game.pot, 26);
    assert_eq!(game.last, Some(0));
}

#[test]
fn call_pays_the_difference() {
    let mut game = fixed_game(
        vec![
            (card(Ace, Spades), card(King, Hearts)),
            (card(Two, Clubs), card(Three, Diamonds)),
        ],
        vec![
            card(Four, Spades),
            card(Eight, Hearts),
            card(Ten, Spades),
            card(Jack, Clubs),
            card(Queen, Diamonds),
        ],
        Round::Flop,
        0,
    );
    game.bet = 15;
    game.players[0].bet = 5;
    assert_eq!(game.apply_action(Action::Call), Ok(()));
    assert_eq!(game.players[0].bet, 15);
    assert_eq!(game.players[0].balance, INITIAL_BALANCE - 10);
    assert_eq!(game.pot, 10);
    assert_eq!(game.bet, 15);
}

#[test]
fn fold_touches_no_chips() {
    let mut game = fixed_game(
        vec![
            (card(Ace, Spades), card(King, Hearts)),
            (card(Two, Clubs), card(Three, Diamonds)),
        ],
        vec![
            card(Four, Spades),
            card(Eight, Hearts),
            card(Ten, Spades),
            card(Jack, Clubs),
            card(Queen, Diamonds),
        ],
        Round::Flop,
        7,
    );
    game.bet = 20;
    assert_eq!(game.apply_action(Action::Fold), Ok(()));
    assert!(game.players[0].folded);
    assert_eq!(game.pot, 7);
    assert_eq!(game.players[0].balance, INITIAL_BALANCE);
}

//
// ROUND COMPLETION AND TERMINATION
//
#[test]
fn street_completes_after_each_player_acts_once() {
    // three active players, no raises: the street closes exactly after the
    // third action, when the pointer returns to the first seat
    let mut game = fixed_game(
        vec![
            (card(Ace, Spades), card(King, Hearts)),
            (card(Two, Clubs), card(Three, Diamonds)),
            (card(Nine, Hearts), card(Nine, Diamonds)),
        ],
        vec![
            card(Four, Spades),
            card(Eight, Hearts),
            card(Ten, Spades),
            card(Jack, Clubs),
            card(Queen, Diamonds),
        ],
        Round::PreFlop,
        0,
    );
    game.bet = 10;

    assert_eq!(game.apply_action(Action::Call), Ok(()));
    game.advance();
    assert!(matches!(game.turn, (Round::PreFlop, 1)));

    assert_eq!(game.apply_action(Action::Call), Ok(()));
    game.advance();
    assert!(matches!(game.turn, (Round::PreFlop, 2)));

    assert_eq!(game.apply_action(Action::Call), Ok(()));
    game.advance();

    // the pre-flop street is over: bets are collected, the flop begins
    assert!(matches!(game.turn, (Round::Flop, 0)));
    assert!(!game.ended);
    assert_eq!(game.pot, 30);
    assert_eq!(game.bet, 0);
    for p in game.players.iter() {
        assert_eq!(p.bet, 0);
    }
}

#[test]
fn raise_reopens_the_street() {
    // after a raise the street closes only when the pointer returns to the
    // raiser, so every other seat gets to answer the raise
    let mut game = fixed_game(
        vec![
            (card(Ace, Spades), card(King, Hearts)),
            (card(Two, Clubs), card(Three, Diamonds)),
            (card(Nine, Hearts), card(Nine, Diamonds)),
        ],
        vec![
            card(Four, Spades),
            card(Eight, Hearts),
            card(Ten, Spades),
            card(Jack, Clubs),
            card(Queen, Diamonds),
        ],
        Round::Flop,
        0,
    );

    assert_eq!(game.apply_action(Action::Check), Ok(()));
    game.advance();
    assert_eq!(game.apply_action(Action::Raise(20)), Ok(()));
    game.advance();
    assert!(matches!(game.turn, (Round::Flop, 2)));
    assert_eq!(game.apply_action(Action::Call), Ok(()));
    game.advance();
    // back at seat 0, which has not answered the raise: still the flop
    assert!(matches!(game.turn, (Round::Flop, 0)));
    assert_eq!(game.apply_action(Action::Call), Ok(()));
    game.advance();
    // the pointer has returned to the raiser: the street is over
    assert!(matches!(game.turn, (Round::Turn, 1)));
    assert_eq!(game.pot, 60);
}

#[test]
fn early_termination_awards_the_pot() {
    // two of three players fold; the hand ends at the street boundary and
    // the remaining player takes the whole pot without a showdown
    let mut game = fixed_game(
        vec![
            (card(Two, Clubs), card(Three, Diamonds)),
            (card(Four, Hearts), card(Five, Clubs)),
            (card(Ace, Spades), card(King, Hearts)),
        ],
        vec![
            card(Four, Spades),
            card(Eight, Hearts),
            card(Ten, Spades),
            card(Jack, Clubs),
            card(Queen, Diamonds),
        ],
        Round::PreFlop,
        0,
    );
    game.bet = 10;

    assert_eq!(game.apply_action(Action::Fold), Ok(()));
    game.advance();
    assert!(!game.ended);
    assert_eq!(game.apply_action(Action::Fold), Ok(()));
    game.advance();
    assert!(!game.ended);
    assert_eq!(game.apply_action(Action::Call), Ok(()));
    game.advance();

    assert!(game.ended);
    // no showdown was reached
    assert!(!matches!(game.turn.0, Round::Showdown));
    // the lone remaining player got the whole pot back
    assert_eq!(game.players[2].balance, INITIAL_BALANCE);
    assert!(!game.players[0].is_playing);
    assert!(!game.players[1].is_playing);
    assert!(game.players[2].is_playing);
}

#[test]
fn showdown_splits_the_pot_between_ties() {
    // seats 0 and 1 hold the same best hand; the pot splits evenly between
    // them and seat 2 gets nothing
    let mut game = fixed_game(
        vec![
            (card(Ace, Clubs), card(Three, Diamonds)),
            (card(Ace, Hearts), card(Three, Spades)),
            (card(King, Hearts), card(Five, Diamonds)),
        ],
        vec![
            card(Ten, Spades),
            card(Ten, Diamonds),
            card(Eight, Clubs),
            card(Four, Diamonds),
            card(Two, Hearts),
        ],
        Round::River,
        90,
    );

    for _ in 0..3 {
        assert_eq!(game.apply_action(Action::Check), Ok(()));
        game.advance();
    }
    assert!(game.ended);
    assert!(matches!(game.turn.0, Round::Showdown));
    assert_eq!(game.players[0].balance, INITIAL_BALANCE + 45);
    assert_eq!(game.players[1].balance, INITIAL_BALANCE + 45);
    assert_eq!(game.players[2].balance, INITIAL_BALANCE);
}

#[test]
fn uneven_split_leaves_the_remainder() {
    // a pot of 91 split between two winners pays 45 each; the odd chip is
    // not distributed
    let mut game = fixed_game(
        vec![
            (card(Ace, Clubs), card(Three, Diamonds)),
            (card(Ace, Hearts), card(Three, Spades)),
            (card(King, Hearts), card(Five, Diamonds)),
        ],
        vec![
            card(Ten, Spades),
            card(Ten, Diamonds),
            card(Eight, Clubs),
            card(Four, Diamonds),
            card(Two, Hearts),
        ],
        Round::River,
        91,
    );

    for _ in 0..3 {
        assert_eq!(game.apply_action(Action::Check), Ok(()));
        game.advance();
    }
    assert!(game.ended);
    assert_eq!(game.players[0].balance, INITIAL_BALANCE + 45);
    assert_eq!(game.players[1].balance, INITIAL_BALANCE + 45);
    assert_eq!(game.players[2].balance, INITIAL_BALANCE);
}

#[test]
fn skipped_seats_do_not_act() {
    // a folded seat's turn is skipped by advancing past it with no action;
    // the street still closes when the pointer returns to the marker
    let mut game = fixed_game(
        vec![
            (card(Ace, Spades), card(King, Hearts)),
            (card(Two, Clubs), card(Three, Diamonds)),
            (card(Nine, Hearts), card(Nine, Diamonds)),
        ],
        vec![
            card(Four, Spades),
            card(Eight, Hearts),
            card(Ten, Spades),
            card(Jack, Clubs),
            card(Queen, Diamonds),
        ],
        Round::Flop,
        12,
    );
    game.players[1].folded = true;

    assert_eq!(game.apply_action(Action::Check), Ok(()));
    game.advance();
    // seat 1 has folded: the caller skips it by advancing without an action
    game.advance();
    assert!(matches!(game.turn, (Round::Flop, 2)));
    assert_eq!(game.apply_action(Action::Check), Ok(()));
    game.advance();
    assert!(matches!(game.turn, (Round::Turn, 0)));
    assert!(!game.players[1].is_playing);
}
