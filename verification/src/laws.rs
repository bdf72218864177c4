use vstd::multiset::Multiset;
use vstd::prelude::*;

use crate::board::{
    board_multiset, deal_lo, lemma_same_multiset_no_duplicates, lemma_to_multiset_add,
    lemma_zone_cards_multiset, Board, Zone,
};
use crate::card::{colors_alternate, suit_index_spec, Card, Suit};
use crate::layout::same_topology;
use crate::moves::{lemma_find_from, move_applied};

verus! {

/// Deal completeness: a board dealt from a 52-card deck holds
/// exactly the deck's cards — every card of the deck sits in exactly
/// one place, 24 in the stock and the rest across the seven piles —
/// and a duplicate-free deck yields a duplicate-free board.
pub proof fn lemma_deal_complete(deck: Seq<Card>, b: Board)
    requires
        deck.len() == 52,
        b.stock@ == deck.subrange(0, 24),
        b.waste@.len() == 0,
        forall|f: int| 0 <= f < 4 ==> #[trigger] b.foundation(f).len() == 0,
        forall|p: int|
            0 <= p < 7 ==> #[trigger] b.pile(p) == deck.subrange(deal_lo(p), deal_lo(p) + p + 1),
    ensures
        b.zone_cards().to_multiset() == deck.to_multiset(),
        b.zone_cards().len() == 52,
        deck.no_duplicates() ==> b.distinct(),
        forall|c: Card| deck.contains(c) ==> b.zone_cards().contains(c),
{
    broadcast use vstd::multiset::group_multiset_axioms;
    broadcast use vstd::seq_lib::group_to_multiset_ensures;

    let c0 = deck.subrange(0, 24);
    let c6 = deck.subrange(24, 31);
    let c5 = deck.subrange(31, 37);
    let c4 = deck.subrange(37, 42);
    let c3 = deck.subrange(42, 46);
    let c2 = deck.subrange(46, 49);
    let c1 = deck.subrange(49, 51);
    let cz = deck.subrange(51, 52);
    let s1 = c0 + c6;
    let s2 = s1 + c5;
    let s3 = s2 + c4;
    let s4 = s3 + c3;
    let s5 = s4 + c2;
    let s6 = s5 + c1;
    let s7 = s6 + cz;
    assert(deck =~= s7);
    lemma_to_multiset_add(c0, c6);
    lemma_to_multiset_add(s1, c5);
    lemma_to_multiset_add(s2, c4);
    lemma_to_multiset_add(s3, c3);
    lemma_to_multiset_add(s4, c2);
    lemma_to_multiset_add(s5, c1);
    lemma_to_multiset_add(s6, cz);
    lemma_zone_cards_multiset(b);
    assert(b.waste@.to_multiset() =~= Multiset::<Card>::empty());
    assert(b.foundation(0).to_multiset() =~= Multiset::<Card>::empty());
    assert(b.foundation(1).to_multiset() =~= Multiset::<Card>::empty());
    assert(b.foundation(2).to_multiset() =~= Multiset::<Card>::empty());
    assert(b.foundation(3).to_multiset() =~= Multiset::<Card>::empty());
    assert(b.pile(0) == cz);
    assert(b.pile(1) == c1);
    assert(b.pile(2) == c2);
    assert(b.pile(3) == c3);
    assert(b.pile(4) == c4);
    assert(b.pile(5) == c5);
    assert(b.pile(6) == c6);
    assert(board_multiset(b) =~= deck.to_multiset());
    assert(b.zone_cards().to_multiset().len() == deck.to_multiset().len());
    assert(b.zone_cards().len() == b.zone_cards().to_multiset().len());
    assert(deck.len() == deck.to_multiset().len());
    if deck.no_duplicates() {
        lemma_same_multiset_no_duplicates(deck, b.zone_cards());
    }
    assert forall|c: Card| deck.contains(c) implies b.zone_cards().contains(c) by {
        assert(deck.to_multiset().count(c) > 0);
        assert(b.zone_cards().to_multiset().count(c) > 0);
    }
}

/// Uniqueness is preserved: an operation that keeps the board's
/// card multiset — every accepted or rejected move, every stock
/// click and every flip pass does — keeps each card in exactly one
/// place.
pub proof fn lemma_distinct_preserved(a: Board, b: Board)
    requires
        a.distinct(),
        b.zone_cards().to_multiset() == a.zone_cards().to_multiset(),
    ensures
        b.distinct(),
{
    lemma_same_multiset_no_duplicates(a.zone_cards(), b.zone_cards());
}

proof fn lemma_pile_source_from_same(a: Board, b: Board, c: Card, p: int)
    requires
        b.tableau@ == a.tableau@,
        b.face_down@ == a.face_down@,
        0 <= p <= 7,
    ensures
        b.pile_source_from(c, p) == a.pile_source_from(c, p),
    decreases 7 - p,
{
    if p < 7 {
        assert(b.pile(p) == a.pile(p));
        assert(b.fdown(p) == a.fdown(p));
        lemma_pile_source_from_same(a, b, c, p + 1);
    }
}

proof fn lemma_foundation_top_from_same(a: Board, b: Board, c: Card, f: int)
    requires
        b.foundations@ == a.foundations@,
        0 <= f <= 4,
    ensures
        b.foundation_top_from(c, f) == a.foundation_top_from(c, f),
    decreases 4 - f,
{
    if f < 4 {
        assert(b.foundation(f) == a.foundation(f));
        lemma_foundation_top_from_same(a, b, c, f + 1);
    }
}

/// The source pile of a card, when there is one, is a real pile
/// index with a face-up occurrence of the card.
pub proof fn lemma_source_pile_range(b: Board, c: Card, p: int)
    requires
        0 <= p <= 7,
    ensures
        b.pile_source_from(c, p) == -1 || (p <= b.pile_source_from(c, p) < 7 && b.chain_start(
            b.pile_source_from(c, p),
            c,
        ) >= 0),
    decreases 7 - p,
{
    if p < 7 && !b.face_up_in_pile(c, p) {
        lemma_source_pile_range(b, c, p + 1);
    }
}

/// Legality is a pure function of the topology: two boards whose
/// zones hold the same cards decide every proposed move alike, so
/// evaluating a move twice over an unchanged board yields the same
/// decision both times.
pub proof fn lemma_move_decision_pure(a: Board, b: Board, dragged: Card, target: Zone)
    requires
        same_topology(a, b),
    ensures
        b.move_allowed(dragged, target) == a.move_allowed(dragged, target),
{
    lemma_pile_source_from_same(a, b, dragged, 0);
    lemma_foundation_top_from_same(a, b, dragged, 0);
    match target {
        Zone::Tableau(p) => {
            assert(b.pile(p as int) == a.pile(p as int));
        },
        Zone::Foundation(s) => {
            let f = suit_index_spec(s);
            assert(b.foundation(f) == a.foundation(f));
            if a.source_is_pile(dragged) {
                let q = a.source_pile(dragged);
                assert(b.pile(q) == a.pile(q));
                assert(b.fdown(q) == a.fdown(q));
            }
        },
        _ => {},
    }
}

/// Alternating-color tableau law: after any accepted move onto an
/// occupied pile, the dragged card sits directly on the pile's old
/// top card, their colors differ, and the old top outranks the
/// dragged card by exactly one.
pub proof fn lemma_tableau_move_law(a: Board, b: Board, dragged: Card, p: usize)
    requires
        a.wf(),
        a.move_allowed(dragged, Zone::Tableau(p)),
        move_applied(a, b, dragged, Zone::Tableau(p)),
        a.pile(p as int).len() > 0,
    ensures
        colors_alternate(dragged, a.pile(p as int).last()),
        a.pile(p as int).last().rank == dragged.rank + 1,
        b.pile(p as int)[a.pile(p as int).len() - 1] == a.pile(p as int).last(),
        b.pile(p as int)[a.pile(p as int).len() as int] == dragged,
{
    let pi = p as int;
    let opl = a.pile(pi).len() as int;
    if a.source_is_pile(dragged) {
        let q = a.source_pile(dragged);
        lemma_source_pile_range(a, dragged, 0);
        lemma_find_from(a.pile(q), dragged, a.fdown(q));
        assert(a.pile(q)[a.chain_start(q, dragged)] == dragged);
        assert(a.moved_chain(dragged)[0] == dragged);
    } else {
        assert(a.moved_chain(dragged)[0] == dragged);
    }
    assert(b.pile(pi)[opl - 1] == a.pile(pi)[opl - 1]);
    assert(b.pile(pi)[opl] == a.moved_chain(dragged)[0]);
}

/// Foundation ascending law: an accepted foundation move carries a
/// card of the foundation's own suit, an Ace when the foundation is
/// empty and otherwise exactly one rank above the previous top, and
/// that card becomes the new top.
pub proof fn lemma_foundation_move_law(a: Board, b: Board, dragged: Card, s: Suit)
    requires
        a.move_allowed(dragged, Zone::Foundation(s)),
        move_applied(a, b, dragged, Zone::Foundation(s)),
    ensures
        dragged.suit == s,
        a.foundation(suit_index_spec(s)).len() == 0 ==> dragged.rank == 1,
        a.foundation(suit_index_spec(s)).len() > 0 ==> dragged.rank == a.foundation(
            suit_index_spec(s),
        ).last().rank + 1,
        b.foundation(suit_index_spec(s)).last() == dragged,
{
}

} // verus!
