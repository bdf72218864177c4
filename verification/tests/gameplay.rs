use klondike::board::{Board, Zone};
use klondike::card::{Card, Suit};
use klondike::moves::MoveOutcome;

fn card(suit: Suit, rank: u8) -> Card {
    Card { suit, rank }
}

fn empty_board() -> Board {
    Board {
        stock: vec![],
        waste: vec![],
        foundations: vec![vec![], vec![], vec![], vec![]],
        tableau: vec![vec![], vec![], vec![], vec![], vec![], vec![], vec![]],
        face_down: vec![0, 0, 0, 0, 0, 0, 0],
    }
}

#[test]
fn draw_then_drop_red_three_on_black_four() {
    // Stock holds the seven of Spades under the three of Diamonds;
    // pile 0 shows the four of Clubs.
    let mut b = empty_board();
    b.stock = vec![card(Suit::Spades, 7), card(Suit::Diamonds, 3)];
    b.tableau[0] = vec![card(Suit::Clubs, 4)];
    b.click_stock();
    assert_eq!(b.waste, vec![card(Suit::Diamonds, 3)]);
    assert_eq!(b.stock, vec![card(Suit::Spades, 7)]);
    let r = b.attempt_move(card(Suit::Diamonds, 3), Zone::Tableau(0));
    assert_eq!(r, MoveOutcome::Accepted);
    assert_eq!(b.tableau[0], vec![card(Suit::Clubs, 4), card(Suit::Diamonds, 3)]);
    assert!(b.waste.is_empty());
}

#[test]
fn only_kings_start_an_empty_pile() {
    let mut b = empty_board();
    b.waste = vec![card(Suit::Hearts, 12)];
    let r = b.attempt_move(card(Suit::Hearts, 12), Zone::Tableau(3));
    assert_eq!(r, MoveOutcome::Rejected);
    assert_eq!(b.waste, vec![card(Suit::Hearts, 12)]);

    let mut b = empty_board();
    b.waste = vec![card(Suit::Hearts, 13)];
    let r = b.attempt_move(card(Suit::Hearts, 13), Zone::Tableau(3));
    assert_eq!(r, MoveOutcome::Accepted);
    assert_eq!(b.tableau[3], vec![card(Suit::Hearts, 13)]);
    assert!(b.waste.is_empty());
}

#[test]
fn foundations_start_with_the_ace() {
    let mut b = empty_board();
    b.waste = vec![card(Suit::Hearts, 2)];
    let r = b.attempt_move(card(Suit::Hearts, 2), Zone::Foundation(Suit::Hearts));
    assert_eq!(r, MoveOutcome::Rejected);

    let mut b = empty_board();
    b.waste = vec![card(Suit::Hearts, 1)];
    let r = b.attempt_move(card(Suit::Hearts, 1), Zone::Foundation(Suit::Hearts));
    assert_eq!(r, MoveOutcome::Accepted);
    assert_eq!(b.foundations[0], vec![card(Suit::Hearts, 1)]);
}

#[test]
fn foundation_takes_only_its_own_suit_in_order() {
    let mut b = empty_board();
    b.foundations[0] = vec![card(Suit::Hearts, 1)];
    b.waste = vec![card(Suit::Spades, 2)];
    let r = b.attempt_move(card(Suit::Spades, 2), Zone::Foundation(Suit::Hearts));
    assert_eq!(r, MoveOutcome::Rejected);

    b.waste = vec![card(Suit::Hearts, 3)];
    let r = b.attempt_move(card(Suit::Hearts, 3), Zone::Foundation(Suit::Hearts));
    assert_eq!(r, MoveOutcome::Rejected);

    b.waste = vec![card(Suit::Hearts, 2)];
    let r = b.attempt_move(card(Suit::Hearts, 2), Zone::Foundation(Suit::Hearts));
    assert_eq!(r, MoveOutcome::Accepted);
    assert_eq!(
        b.foundations[0],
        vec![card(Suit::Hearts, 1), card(Suit::Hearts, 2)]
    );
}

#[test]
fn tableau_move_needs_alternating_colors() {
    // A red five may not rest on a red six.
    let mut b = empty_board();
    b.tableau[0] = vec![card(Suit::Hearts, 6)];
    b.waste = vec![card(Suit::Diamonds, 5)];
    let r = b.attempt_move(card(Suit::Diamonds, 5), Zone::Tableau(0));
    assert_eq!(r, MoveOutcome::Rejected);

    b.waste = vec![card(Suit::Clubs, 5)];
    let r = b.attempt_move(card(Suit::Clubs, 5), Zone::Tableau(0));
    assert_eq!(r, MoveOutcome::Accepted);
}

#[test]
fn tableau_move_needs_rank_one_below() {
    let mut b = empty_board();
    b.tableau[0] = vec![card(Suit::Hearts, 6)];
    b.waste = vec![card(Suit::Clubs, 4)];
    let r = b.attempt_move(card(Suit::Clubs, 4), Zone::Tableau(0));
    assert_eq!(r, MoveOutcome::Rejected);
    // The subtraction goes the wrong way round: a seven on a six.
    b.waste = vec![card(Suit::Clubs, 7)];
    let r = b.attempt_move(card(Suit::Clubs, 7), Zone::Tableau(0));
    assert_eq!(r, MoveOutcome::Rejected);
}

#[test]
fn dropping_a_card_on_its_own_pile_is_rejected() {
    let mut b = empty_board();
    b.tableau[2] = vec![card(Suit::Hearts, 9), card(Suit::Spades, 8)];
    let r = b.attempt_move(card(Suit::Spades, 8), Zone::Tableau(2));
    assert_eq!(r, MoveOutcome::Rejected);
    assert_eq!(
        b.tableau[2],
        vec![card(Suit::Hearts, 9), card(Suit::Spades, 8)]
    );
}

#[test]
fn dropping_on_stock_or_waste_is_rejected() {
    let mut b = empty_board();
    b.waste = vec![card(Suit::Hearts, 5)];
    assert_eq!(
        b.attempt_move(card(Suit::Hearts, 5), Zone::Stock),
        MoveOutcome::Rejected
    );
    assert_eq!(
        b.attempt_move(card(Suit::Hearts, 5), Zone::Waste),
        MoveOutcome::Rejected
    );
}

#[test]
fn a_face_down_card_cannot_be_dragged() {
    let mut b = empty_board();
    // Pile 1 hides a black ten under a face-up red nine... pile 0 offers a black jack.
    b.tableau[0] = vec![card(Suit::Spades, 11)];
    b.tableau[1] = vec![card(Suit::Clubs, 10), card(Suit::Hearts, 9)];
    b.face_down[1] = 1;
    let r = b.attempt_move(card(Suit::Clubs, 10), Zone::Tableau(0));
    assert_eq!(r, MoveOutcome::Rejected);
}

#[test]
fn a_whole_chain_moves_together() {
    let mut b = empty_board();
    // Pile 0: a hidden two of Hearts under the face-up eight of
    // Hearts carrying the seven of Spades. Pile 1 shows the nine of
    // Clubs.
    b.tableau[0] = vec![
        card(Suit::Hearts, 2),
        card(Suit::Hearts, 8),
        card(Suit::Spades, 7),
    ];
    b.face_down[0] = 1;
    b.tableau[1] = vec![card(Suit::Clubs, 9)];
    let r = b.attempt_move(card(Suit::Hearts, 8), Zone::Tableau(1));
    assert_eq!(r, MoveOutcome::Accepted);
    assert_eq!(b.tableau[0], vec![card(Suit::Hearts, 2)]);
    assert_eq!(
        b.tableau[1],
        vec![
            card(Suit::Clubs, 9),
            card(Suit::Hearts, 8),
            card(Suit::Spades, 7)
        ]
    );
}

#[test]
fn a_chain_may_not_go_to_a_foundation() {
    let mut b = empty_board();
    b.tableau[0] = vec![card(Suit::Hearts, 2), card(Suit::Spades, 1)];
    b.foundations[3] = vec![];
    let r = b.attempt_move(card(Suit::Hearts, 2), Zone::Foundation(Suit::Hearts));
    assert_eq!(r, MoveOutcome::Rejected);
    // The top of the chain may go.
    let r = b.attempt_move(card(Suit::Spades, 1), Zone::Foundation(Suit::Spades));
    assert_eq!(r, MoveOutcome::Accepted);
    assert_eq!(b.foundations[3], vec![card(Suit::Spades, 1)]);
}

#[test]
fn foundation_top_can_return_to_the_tableau() {
    let mut b = empty_board();
    b.foundations[0] = vec![card(Suit::Hearts, 1), card(Suit::Hearts, 2)];
    b.tableau[0] = vec![card(Suit::Spades, 3)];
    let r = b.attempt_move(card(Suit::Hearts, 2), Zone::Tableau(0));
    assert_eq!(r, MoveOutcome::Accepted);
    assert_eq!(b.foundations[0], vec![card(Suit::Hearts, 1)]);
    assert_eq!(
        b.tableau[0],
        vec![card(Suit::Spades, 3), card(Suit::Hearts, 2)]
    );
}

#[test]
fn evaluate_move_is_pure() {
    let mut b = empty_board();
    b.tableau[0] = vec![card(Suit::Clubs, 4)];
    b.waste = vec![card(Suit::Diamonds, 3)];
    let first = b.evaluate_move(card(Suit::Diamonds, 3), Zone::Tableau(0));
    let second = b.evaluate_move(card(Suit::Diamonds, 3), Zone::Tableau(0));
    assert_eq!(first, second);
    assert_eq!(first, MoveOutcome::Accepted);
    let third = b.evaluate_move(card(Suit::Diamonds, 3), Zone::Tableau(1));
    let fourth = b.evaluate_move(card(Suit::Diamonds, 3), Zone::Tableau(1));
    assert_eq!(third, fourth);
    assert_eq!(third, MoveOutcome::Rejected);
}

#[test]
fn rejected_moves_leave_the_board_unchanged() {
    let mut b = empty_board();
    b.tableau[0] = vec![card(Suit::Clubs, 4)];
    b.waste = vec![card(Suit::Diamonds, 9)];
    let before = b.clone();
    let r = b.attempt_move(card(Suit::Diamonds, 9), Zone::Tableau(0));
    assert_eq!(r, MoveOutcome::Rejected);
    assert_eq!(b.stock, before.stock);
    assert_eq!(b.waste, before.waste);
    assert_eq!(b.foundations, before.foundations);
    assert_eq!(b.tableau, before.tableau);
    assert_eq!(b.face_down, before.face_down);
}

#[test]
fn flip_exposes_the_new_top_card() {
    let mut b = empty_board();
    b.tableau[0] = vec![card(Suit::Hearts, 2), card(Suit::Clubs, 9)];
    b.face_down[0] = 1;
    b.tableau[1] = vec![card(Suit::Diamonds, 10)];
    let r = b.attempt_move(card(Suit::Clubs, 9), Zone::Tableau(1));
    assert_eq!(r, MoveOutcome::Accepted);
    // The two of Hearts is still face down until the flip pass runs.
    assert_eq!(b.face_down[0], 1);
    b.flip_last_card_of_piles();
    assert_eq!(b.face_down[0], 0);
    // Untouched piles keep their counts.
    assert_eq!(b.face_down[1], 0);
}

#[test]
fn stock_waste_round_trip_restores_the_order() {
    let mut b = empty_board();
    let original = vec![
        card(Suit::Spades, 7),
        card(Suit::Hearts, 4),
        card(Suit::Diamonds, 11),
        card(Suit::Clubs, 1),
    ];
    b.stock = original.clone();
    for _ in 0..4 {
        b.click_stock();
    }
    assert!(b.stock.is_empty());
    assert_eq!(b.waste.len(), 4);
    // The waste holds the stock's cards in reverse draw order.
    assert_eq!(
        b.waste,
        vec![
            card(Suit::Clubs, 1),
            card(Suit::Diamonds, 11),
            card(Suit::Hearts, 4),
            card(Suit::Spades, 7)
        ]
    );
    // The recycling click restores the stock exactly.
    b.click_stock();
    assert_eq!(b.stock, original);
    assert!(b.waste.is_empty());
}

#[test]
fn click_on_empty_stock_and_waste_does_nothing() {
    let mut b = empty_board();
    b.click_stock();
    assert!(b.stock.is_empty());
    assert!(b.waste.is_empty());
}

#[test]
fn reconcile_is_idempotent() {
    let mut b = Board::new_game();
    b.click_stock();
    let first = b.reconcile();
    let second = b.reconcile();
    assert_eq!(first, second);
}

#[test]
fn reconcile_fans_out_tableau_and_collapses_waste() {
    let mut b = empty_board();
    b.tableau[0] = vec![
        card(Suit::Hearts, 2),
        card(Suit::Clubs, 9),
        card(Suit::Diamonds, 8),
    ];
    b.face_down[0] = 1;
    b.waste = vec![card(Suit::Spades, 5), card(Suit::Hearts, 12)];
    let visuals = b.reconcile();
    // Waste first (the stock is empty): both cards at the anchor,
    // only the top visible.
    assert_eq!(visuals[0].card, card(Suit::Spades, 5));
    assert_eq!((visuals[0].x, visuals[0].y, visuals[0].z), (0, 0, 0));
    assert!(!visuals[0].visible);
    assert!(visuals[0].face_up);
    assert_eq!(visuals[1].card, card(Suit::Hearts, 12));
    assert_eq!((visuals[1].x, visuals[1].y, visuals[1].z), (0, 0, 1));
    assert!(visuals[1].visible);
    assert!(visuals[1].pickable);
    // Pile 0 fans out downward by 50 per card; the hidden bottom
    // card is face down and unpickable.
    assert_eq!(visuals[2].card, card(Suit::Hearts, 2));
    assert_eq!((visuals[2].x, visuals[2].y, visuals[2].z), (0, 0, 0));
    assert!(visuals[2].visible);
    assert!(!visuals[2].face_up);
    assert!(!visuals[2].pickable);
    assert_eq!(visuals[3].card, card(Suit::Clubs, 9));
    assert_eq!((visuals[3].x, visuals[3].y, visuals[3].z), (0, -50, 1));
    assert!(visuals[3].face_up);
    assert_eq!(visuals[4].card, card(Suit::Diamonds, 8));
    assert_eq!((visuals[4].x, visuals[4].y, visuals[4].z), (0, -100, 2));
    assert!(visuals[4].face_up);
    assert!(visuals[4].pickable);
}

#[test]
fn zone_of_card_finds_each_zone() {
    let mut b = empty_board();
    b.stock = vec![card(Suit::Spades, 7)];
    b.waste = vec![card(Suit::Hearts, 4)];
    b.foundations[1] = vec![card(Suit::Diamonds, 1)];
    b.tableau[5] = vec![card(Suit::Clubs, 13), card(Suit::Hearts, 12)];
    assert_eq!(b.zone_of_card(card(Suit::Spades, 7)), Some(Zone::Stock));
    assert_eq!(b.zone_of_card(card(Suit::Hearts, 4)), Some(Zone::Waste));
    assert_eq!(
        b.zone_of_card(card(Suit::Diamonds, 1)),
        Some(Zone::Foundation(Suit::Diamonds))
    );
    assert_eq!(b.zone_of_card(card(Suit::Clubs, 13)), Some(Zone::Tableau(5)));
    assert_eq!(b.zone_of_card(card(Suit::Hearts, 12)), Some(Zone::Tableau(5)));
    assert_eq!(b.zone_of_card(card(Suit::Spades, 9)), None);
}

#[test]
fn a_drop_resolved_through_the_target_card_moves_the_chain() {
    let mut b = empty_board();
    b.waste = vec![card(Suit::Diamonds, 3)];
    b.tableau[0] = vec![card(Suit::Clubs, 4)];
    let zone = b.zone_of_card(card(Suit::Clubs, 4)).unwrap();
    assert_eq!(zone, Zone::Tableau(0));
    let r = b.attempt_move(card(Suit::Diamonds, 3), zone);
    assert_eq!(r, MoveOutcome::Accepted);
    assert_eq!(
        b.tableau[0],
        vec![card(Suit::Clubs, 4), card(Suit::Diamonds, 3)]
    );
}

#[test]
fn reconcile_collapses_foundations_to_the_top_card() {
    let mut b = empty_board();
    b.foundations[0] = vec![card(Suit::Hearts, 1), card(Suit::Hearts, 2)];
    let visuals = b.reconcile();
    assert_eq!(visuals.len(), 2);
    assert_eq!(visuals[0].card, card(Suit::Hearts, 1));
    assert!(!visuals[0].visible);
    assert_eq!(visuals[1].card, card(Suit::Hearts, 2));
    assert!(visuals[1].visible);
    assert_eq!((visuals[1].x, visuals[1].y), (0, 0));
}
