use rand::seq::SliceRandom;
use vstd::prelude::*;

use crate::board::{seq_cards_ok, Board};
use crate::card::{card_ok, full_deck, lemma_deck_no_duplicates, Card};

verus! {

/// Relies on rand's `SliceRandom::shuffle` with `rand::thread_rng`:
/// a Fisher-Yates pass that only swaps elements in place, so the
/// deck after the call holds exactly the cards it held before,
/// rearranged in some order.
#[verifier::external_body]
fn shuffle_cards(deck: &mut Vec<Card>)
    ensures
        final(deck)@.to_multiset() == old(deck)@.to_multiset(),
        final(deck)@.len() == old(deck)@.len(),
{
    deck.shuffle(&mut rand::thread_rng());
}

/// Builds the 52-card deck and shuffles it with the process-wide
/// random source. Whatever order comes back, the deck holds each of
/// the 52 well-formed cards exactly once.
pub fn shuffled_deck() -> (deck: Vec<Card>)
    ensures
        deck@.len() == 52,
        deck@.no_duplicates(),
        seq_cards_ok(deck@),
        forall|c: Card| card_ok(c) ==> deck@.contains(c),
{
    broadcast use vstd::seq_lib::group_to_multiset_ensures;

    let mut deck = full_deck();
    let ghost pre = deck@;
    proof {
        lemma_deck_no_duplicates(pre);
        assert forall|k: int| 0 <= k < pre.len() implies card_ok(#[trigger] pre[k]) by {
            assert(pre[k] == crate::card::card_of_index(k));
        }
    }
    shuffle_cards(&mut deck);
    proof {
        crate::board::lemma_same_multiset_no_duplicates(pre, deck@);
        assert forall|i: int| 0 <= i < deck@.len() implies card_ok(#[trigger] deck@[i]) by {
            assert(deck@.contains(deck@[i]));
            assert(deck@.to_multiset().count(deck@[i]) > 0);
            assert(pre.to_multiset().count(deck@[i]) > 0);
            assert(pre.contains(deck@[i]));
            let j = choose|j: int| 0 <= j < pre.len() && pre[j] == deck@[i];
            assert(card_ok(pre[j]));
        }
        assert forall|c: Card| card_ok(c) implies deck@.contains(c) by {
            crate::card::lemma_deck_index_of_card(c);
            assert(pre[crate::card::deck_index_of(c)] == c);
            assert(pre.contains(c));
            assert(pre.to_multiset().count(c) > 0);
            assert(deck@.to_multiset().count(c) > 0);
        }
    }
    deck
}

impl Board {
    /// Deals a fresh game: a uniformly shuffled deck partitioned
    /// into the seven piles and the stock, with empty waste and
    /// foundations. The resulting board holds each of the 52 cards
    /// exactly once.
    pub fn new_game() -> (b: Board)
        ensures
            b.inv(),
            b.tops_exposed(),
            b.distinct(),
            b.stock@.len() == 24,
            b.waste@.len() == 0,
            forall|f: int| 0 <= f < 4 ==> #[trigger] b.foundation(f).len() == 0,
            forall|p: int| 0 <= p < 7 ==> #[trigger] b.pile(p).len() == p + 1,
            forall|p: int| 0 <= p < 7 ==> #[trigger] b.fdown(p) == p,
            b.zone_cards().len() == 52,
            forall|c: Card| card_ok(c) ==> b.zone_cards().contains(c),
    {
        let deck = shuffled_deck();
        let ghost deck_view = deck@;
        let b = Board::deal(deck);
        proof {
            crate::laws::lemma_deal_complete(deck_view, b);
        }
        b
    }
}

} // verus!
