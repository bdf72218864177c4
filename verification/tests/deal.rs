use klondike::board::Board;
use klondike::card::{full_deck, Card, Suit};
use klondike::shuffle::shuffled_deck;

fn card(suit: Suit, rank: u8) -> Card {
    Card { suit, rank }
}

#[test]
fn full_deck_has_52_unique_cards() {
    let deck = full_deck();
    assert_eq!(deck.len(), 52);
    for i in 0..deck.len() {
        for j in 0..i {
            assert_ne!(deck[i], deck[j]);
        }
    }
    for suit in [Suit::Hearts, Suit::Diamonds, Suit::Clubs, Suit::Spades] {
        for rank in 1..14 {
            assert!(deck.contains(&card(suit, rank)));
        }
    }
}

#[test]
fn shuffled_deck_still_complete() {
    let deck = shuffled_deck();
    assert_eq!(deck.len(), 52);
    for suit in [Suit::Hearts, Suit::Diamonds, Suit::Clubs, Suit::Spades] {
        for rank in 1..14 {
            assert!(deck.contains(&card(suit, rank)));
        }
    }
}

#[test]
fn deal_produces_klondike_shape() {
    let b = Board::deal(full_deck());
    assert_eq!(b.stock.len(), 24);
    assert_eq!(b.waste.len(), 0);
    for f in 0..4 {
        assert_eq!(b.foundations[f].len(), 0);
    }
    for p in 0..7 {
        assert_eq!(b.tableau[p].len(), p + 1);
        assert_eq!(b.face_down[p], p);
    }
}

#[test]
fn deal_takes_piles_from_the_end_of_the_deck() {
    let deck = full_deck();
    let b = Board::deal(full_deck());
    assert_eq!(b.tableau[0], vec![deck[51]]);
    assert_eq!(b.tableau[1], vec![deck[49], deck[50]]);
    assert_eq!(b.tableau[6], deck[24..31].to_vec());
    assert_eq!(b.stock, deck[0..24].to_vec());
}

#[test]
fn new_game_board_holds_every_card_once() {
    let b = Board::new_game();
    let mut all: Vec<Card> = Vec::new();
    all.extend(b.stock.iter().cloned());
    all.extend(b.waste.iter().cloned());
    for f in 0..4 {
        all.extend(b.foundations[f].iter().cloned());
    }
    for p in 0..7 {
        all.extend(b.tableau[p].iter().cloned());
    }
    assert_eq!(all.len(), 52);
    for i in 0..all.len() {
        for j in 0..i {
            assert_ne!(all[i], all[j]);
        }
    }
    assert_eq!(b.stock.len(), 24);
    for p in 0..7 {
        assert_eq!(b.tableau[p].len(), p + 1);
    }
}
