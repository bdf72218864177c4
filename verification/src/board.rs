use vstd::multiset::Multiset;
use vstd::prelude::*;

use crate::card::{card_ok, suit_of_index, Card, Suit};

verus! {

/// The zones of the board: the face-down stock, the face-up waste,
/// one foundation per suit, and seven tableau piles (indexed 0..=6).
#[derive(Copy, Clone, PartialEq, Eq, Structural, Debug)]
pub enum Zone {
    Stock,
    Waste,
    Foundation(Suit),
    Tableau(usize),
}

/// Every card of a sequence is a well-formed card.
pub open spec fn seq_cards_ok(s: Seq<Card>) -> bool {
    forall|i: int| 0 <= i < s.len() ==> card_ok(#[trigger] s[i])
}

/// The whole board state. Each zone owns the ordered sequence of its
/// cards; index 0 is the bottom of a pile and the last index its top.
/// `face_down[p]` counts the face-down cards at the bottom of tableau
/// pile `p`: every card at an index below it lies face down, every
/// card at or above it lies face up.
#[derive(Clone, Debug)]
pub struct Board {
    pub stock: Vec<Card>,
    pub waste: Vec<Card>,
    pub foundations: Vec<Vec<Card>>,
    pub tableau: Vec<Vec<Card>>,
    pub face_down: Vec<usize>,
}

impl Board {
    /// The cards of tableau pile `p`, bottom first.
    pub open spec fn pile(self, p: int) -> Seq<Card> {
        self.tableau@[p]@
    }

    /// The cards of the foundation of the suit with index `f`,
    /// bottom first.
    pub open spec fn foundation(self, f: int) -> Seq<Card> {
        self.foundations@[f]@
    }

    /// How many cards at the bottom of pile `p` lie face down.
    pub open spec fn fdown(self, p: int) -> int {
        self.face_down@[p] as int
    }

    /// Every card of every zone, in one fixed order.
    pub open spec fn zone_cards(self) -> Seq<Card> {
        self.stock@ + self.waste@ + self.foundation(0) + self.foundation(1) + self.foundation(2)
            + self.foundation(3) + self.pile(0) + self.pile(1) + self.pile(2) + self.pile(3)
            + self.pile(4) + self.pile(5) + self.pile(6)
    }

    /// Structural well-formedness: the right number of zones, the
    /// face-down counts within bounds, and no more cards than one
    /// deck holds.
    pub open spec fn wf(self) -> bool {
        &&& self.foundations@.len() == 4
        &&& self.tableau@.len() == 7
        &&& self.face_down@.len() == 7
        &&& forall|p: int| 0 <= p < 7 ==> #[trigger] self.fdown(p) <= self.pile(p).len()
        &&& self.zone_cards().len() <= 52
    }

    /// Every card on the board carries a rank in 1..=13.
    pub open spec fn cards_ok(self) -> bool {
        &&& seq_cards_ok(self.stock@)
        &&& seq_cards_ok(self.waste@)
        &&& forall|f: int| 0 <= f < 4 ==> seq_cards_ok(#[trigger] self.foundation(f))
        &&& forall|p: int| 0 <= p < 7 ==> seq_cards_ok(#[trigger] self.pile(p))
    }

    /// Each foundation holds exactly the cards of its own suit, in
    /// ascending rank order starting from the Ace.
    pub open spec fn foundations_ok(self) -> bool {
        forall|f: int, i: int|
            0 <= f < 4 && 0 <= i < self.foundation(f).len() ==> #[trigger] self.foundation(f)[i]
                == (Card { suit: suit_of_index(f), rank: (i + 1) as u8 })
    }

    /// The face-up part of every tableau pile is a descending run of
    /// alternating colors: each face-up card sits on a card of the
    /// other color whose rank is one higher.
    pub open spec fn runs_ok(self) -> bool {
        forall|p: int, i: int, j: int|
            0 <= p < 7 && self.fdown(p) <= i && j == i + 1 && j < self.pile(p).len() ==> {
                &&& crate::card::colors_alternate(
                    #[trigger] self.pile(p)[j],
                    #[trigger] self.pile(p)[i],
                )
                &&& self.pile(p)[i].rank == self.pile(p)[j].rank + 1
            }
    }

    /// Every non-empty tableau pile shows a face-up top card. This
    /// holds after the flip pass has run; an accepted move may leave
    /// a pile with its newly exposed top still face down until then.
    pub open spec fn tops_exposed(self) -> bool {
        forall|p: int|
            0 <= p < 7 && #[trigger] self.pile(p).len() > 0 ==> self.fdown(p) < self.pile(p).len()
    }

    /// The board invariant that the deal establishes and that every
    /// operation preserves.
    pub open spec fn inv(self) -> bool {
        &&& self.wf()
        &&& self.cards_ok()
        &&& self.foundations_ok()
        &&& self.runs_ok()
    }

    /// No card appears twice anywhere on the board: every card
    /// belongs to exactly one place in one zone.
    pub open spec fn distinct(self) -> bool {
        self.zone_cards().no_duplicates()
    }
}

/// The cards of the board counted as a multiset, zone by zone.
pub open spec fn board_multiset(b: Board) -> Multiset<Card> {
    b.stock@.to_multiset().add(b.waste@.to_multiset()).add(b.foundation(0).to_multiset()).add(
        b.foundation(1).to_multiset(),
    ).add(b.foundation(2).to_multiset()).add(b.foundation(3).to_multiset()).add(
        b.pile(0).to_multiset(),
    ).add(b.pile(1).to_multiset()).add(b.pile(2).to_multiset()).add(b.pile(3).to_multiset()).add(
        b.pile(4).to_multiset(),
    ).add(b.pile(5).to_multiset()).add(b.pile(6).to_multiset())
}

/// Counting the cards of a concatenation counts both parts.
pub proof fn lemma_to_multiset_add(a: Seq<Card>, b: Seq<Card>)
    ensures
        (a + b).to_multiset() == a.to_multiset().add(b.to_multiset()),
    decreases b.len(),
{
    broadcast use vstd::seq_lib::group_to_multiset_ensures;
    broadcast use vstd::multiset::group_multiset_axioms;

    if b.len() == 0 {
        assert(a + b =~= a);
        assert(b.to_multiset() =~= Multiset::<Card>::empty());
        assert(a.to_multiset().add(b.to_multiset()) =~= a.to_multiset());
    } else {
        let b0 = b.drop_last();
        let x = b.last();
        lemma_to_multiset_add(a, b0);
        assert(a + b =~= (a + b0).push(x));
        assert(b =~= b0.push(x));
        assert((a + b).to_multiset() =~= (a + b0).to_multiset().insert(x));
        assert(b.to_multiset() =~= b0.to_multiset().insert(x));
        assert(a.to_multiset().add(b.to_multiset()) =~= (a + b).to_multiset());
    }
}

/// The flat card sequence of a board counts the same cards as its
/// zone-by-zone multiset.
pub proof fn lemma_zone_cards_multiset(b: Board)
    ensures
        b.zone_cards().to_multiset() == board_multiset(b),
{
    let s0 = b.stock@;
    let s1 = s0 + b.waste@;
    let s2 = s1 + b.foundation(0);
    let s3 = s2 + b.foundation(1);
    let s4 = s3 + b.foundation(2);
    let s5 = s4 + b.foundation(3);
    let s6 = s5 + b.pile(0);
    let s7 = s6 + b.pile(1);
    let s8 = s7 + b.pile(2);
    let s9 = s8 + b.pile(3);
    let s10 = s9 + b.pile(4);
    let s11 = s10 + b.pile(5);
    lemma_to_multiset_add(s0, b.waste@);
    lemma_to_multiset_add(s1, b.foundation(0));
    lemma_to_multiset_add(s2, b.foundation(1));
    lemma_to_multiset_add(s3, b.foundation(2));
    lemma_to_multiset_add(s4, b.foundation(3));
    lemma_to_multiset_add(s5, b.pile(0));
    lemma_to_multiset_add(s6, b.pile(1));
    lemma_to_multiset_add(s7, b.pile(2));
    lemma_to_multiset_add(s8, b.pile(3));
    lemma_to_multiset_add(s9, b.pile(4));
    lemma_to_multiset_add(s10, b.pile(5));
    lemma_to_multiset_add(s11, b.pile(6));
}

/// Two boards with the same tableau state have the same valid runs.
pub proof fn lemma_runs_ok_same_tableau(a: Board, b: Board)
    requires
        a.runs_ok(),
        b.tableau@ == a.tableau@,
        b.face_down@ == a.face_down@,
    ensures
        b.runs_ok(),
{
    assert forall|pp: int, x: int, y: int|
        0 <= pp < 7 && b.fdown(pp) <= x && y == x + 1 && y < b.pile(pp).len() implies {
            &&& crate::card::colors_alternate(#[trigger] b.pile(pp)[y], #[trigger] b.pile(pp)[x])
            &&& b.pile(pp)[x].rank == b.pile(pp)[y].rank + 1
        } by {
        assert(b.pile(pp) == a.pile(pp));
        assert(crate::card::colors_alternate(a.pile(pp)[y], a.pile(pp)[x]));
    }
}

/// Two boards with the same foundations have the same ascending
/// foundation chains.
pub proof fn lemma_foundations_ok_same(a: Board, b: Board)
    requires
        a.foundations_ok(),
        b.foundations@ == a.foundations@,
    ensures
        b.foundations_ok(),
{
    assert forall|f: int, i: int|
        0 <= f < 4 && 0 <= i < b.foundation(f).len() implies (#[trigger] b.foundation(f)[i])
            == (Card { suit: suit_of_index(f), rank: (i + 1) as u8 }) by {
        assert(b.foundation(f) == a.foundation(f));
        assert(a.foundation(f)[i] == (Card { suit: suit_of_index(f), rank: (i + 1) as u8 }));
    }
}

/// A rearrangement of a duplicate-free sequence is duplicate-free.
pub proof fn lemma_same_multiset_no_duplicates(a: Seq<Card>, b: Seq<Card>)
    requires
        a.to_multiset() == b.to_multiset(),
        a.no_duplicates(),
    ensures
        b.no_duplicates(),
{
    a.lemma_multiset_has_no_duplicates();
    b.lemma_multiset_has_no_duplicates_conv();
}

/// The deck position where tableau pile `p` begins under the deal
/// rule: pile 0 receives the last card of the deck, pile 1 the two
/// cards before it, and so on; pile `p` receives `p + 1` cards.
pub open spec fn deal_lo(p: int) -> int {
    if p == 0 {
        51
    } else if p == 1 {
        49
    } else if p == 2 {
        46
    } else if p == 3 {
        42
    } else if p == 4 {
        37
    } else if p == 5 {
        31
    } else {
        24
    }
}

impl Board {
    /// Deals a 52-card deck: pile `p` takes the `p + 1` cards at
    /// deck positions `deal_lo(p)..deal_lo(p) + p + 1`, consumed
    /// from the end of the deck in increasing pile order; the first
    /// 24 cards stay in the stock. Only the top card of each pile
    /// lies face up. Waste and foundations start empty.
    pub fn deal(deck: Vec<Card>) -> (b: Board)
        requires
            deck@.len() == 52,
            seq_cards_ok(deck@),
        ensures
            b.stock@ == deck@.subrange(0, 24),
            b.waste@.len() == 0,
            forall|f: int| 0 <= f < 4 ==> #[trigger] b.foundation(f).len() == 0,
            forall|p: int|
                0 <= p < 7 ==> #[trigger] b.pile(p) == deck@.subrange(deal_lo(p), deal_lo(p) + p + 1),
            forall|p: int| 0 <= p < 7 ==> #[trigger] b.fdown(p) == p,
            b.inv(),
            b.tops_exposed(),
    {
        let ghost orig = deck@;
        let mut deck = deck;
        let pile0 = deck.split_off(51);
        let pile1 = deck.split_off(49);
        let pile2 = deck.split_off(46);
        let pile3 = deck.split_off(42);
        let pile4 = deck.split_off(37);
        let pile5 = deck.split_off(31);
        let pile6 = deck.split_off(24);
        proof {
            assert(pile0@ =~= orig.subrange(51, 52));
            assert(pile1@ =~= orig.subrange(49, 51));
            assert(pile2@ =~= orig.subrange(46, 49));
            assert(pile3@ =~= orig.subrange(42, 46));
            assert(pile4@ =~= orig.subrange(37, 42));
            assert(pile5@ =~= orig.subrange(31, 37));
            assert(pile6@ =~= orig.subrange(24, 31));
            assert(deck@ =~= orig.subrange(0, 24));
        }
        let mut tableau: Vec<Vec<Card>> = Vec::new();
        tableau.push(pile0);
        tableau.push(pile1);
        tableau.push(pile2);
        tableau.push(pile3);
        tableau.push(pile4);
        tableau.push(pile5);
        tableau.push(pile6);
        let mut face_down: Vec<usize> = Vec::new();
        face_down.push(0);
        face_down.push(1);
        face_down.push(2);
        face_down.push(3);
        face_down.push(4);
        face_down.push(5);
        face_down.push(6);
        let mut foundations: Vec<Vec<Card>> = Vec::new();
        foundations.push(Vec::new());
        foundations.push(Vec::new());
        foundations.push(Vec::new());
        foundations.push(Vec::new());
        let b = Board { stock: deck, waste: Vec::new(), foundations, tableau, face_down };
        proof {
            assert forall|p: int| 0 <= p < 7 implies #[trigger] b.pile(p) == orig.subrange(
                deal_lo(p),
                deal_lo(p) + p + 1,
            ) by {
                assert(b.pile(p) =~= orig.subrange(deal_lo(p), deal_lo(p) + p + 1));
            }
            assert(b.zone_cards().len() <= 52);
        }
        b
    }
}

} // verus!
