use vstd::prelude::*;

use crate::board::{Board, Zone};
use crate::card::{suit_of_index, Card};

verus! {

/// The derived visual state of one card: offsets relative to its
/// zone's anchor, a depth index (a card with a higher depth renders
/// above one with a lower), its visibility, which face shows, and
/// whether the player can pick it.
#[derive(Copy, Clone, PartialEq, Eq, Structural, Debug)]
pub struct CardVisual {
    pub card: Card,
    pub zone: Zone,
    pub x: i32,
    pub y: i32,
    pub z: i32,
    pub visible: bool,
    pub face_up: bool,
    pub pickable: bool,
}

/// Stock cards rest face down in one overlapping heap at the zone's
/// anchor; only the top one can be clicked.
pub open spec fn stock_visual(b: Board, i: int) -> CardVisual {
    CardVisual {
        card: b.stock@[i],
        zone: Zone::Stock,
        x: 0,
        y: 0,
        z: i as i32,
        visible: true,
        face_up: false,
        pickable: i == b.stock@.len() - 1,
    }
}

/// Waste cards collapse to the zone's anchor; only the top card is
/// visible and pickable, face up.
pub open spec fn waste_visual(b: Board, i: int) -> CardVisual {
    CardVisual {
        card: b.waste@[i],
        zone: Zone::Waste,
        x: 0,
        y: 0,
        z: i as i32,
        visible: i == b.waste@.len() - 1,
        face_up: true,
        pickable: i == b.waste@.len() - 1,
    }
}

/// Foundation cards collapse to the zone's anchor; only the chain's
/// top card is visible, with the topmost depth, and pickable.
pub open spec fn foundation_visual(b: Board, f: int, i: int) -> CardVisual {
    CardVisual {
        card: b.foundation(f)[i],
        zone: Zone::Foundation(suit_of_index(f)),
        x: 0,
        y: 0,
        z: i as i32,
        visible: i == b.foundation(f).len() - 1,
        face_up: true,
        pickable: i == b.foundation(f).len() - 1,
    }
}

/// Tableau cards fan out in a vertical column: the `i`-th card from
/// the pile's root sits `50 * i` units below the anchor at depth
/// `i`, so the stacking history stays exposed. A card is face up and
/// pickable exactly when it lies at or above the pile's face-down
/// count.
pub open spec fn tableau_visual(b: Board, p: int, i: int) -> CardVisual {
    CardVisual {
        card: b.pile(p)[i],
        zone: Zone::Tableau(p as usize),
        x: 0,
        y: (-50 * i) as i32,
        z: i as i32,
        visible: true,
        face_up: i >= b.fdown(p),
        pickable: i >= b.fdown(p),
    }
}

pub open spec fn stock_visuals(b: Board) -> Seq<CardVisual> {
    Seq::new(b.stock@.len(), |i: int| stock_visual(b, i))
}

pub open spec fn waste_visuals(b: Board) -> Seq<CardVisual> {
    Seq::new(b.waste@.len(), |i: int| waste_visual(b, i))
}

pub open spec fn foundation_visuals(b: Board, f: int) -> Seq<CardVisual> {
    Seq::new(b.foundation(f).len(), |i: int| foundation_visual(b, f, i))
}

pub open spec fn pile_visuals(b: Board, p: int) -> Seq<CardVisual> {
    Seq::new(b.pile(p).len(), |i: int| tableau_visual(b, p, i))
}

/// The visual state of every card on the board, zone by zone.
pub open spec fn layout_spec(b: Board) -> Seq<CardVisual> {
    stock_visuals(b) + waste_visuals(b) + foundation_visuals(b, 0) + foundation_visuals(b, 1)
        + foundation_visuals(b, 2) + foundation_visuals(b, 3) + pile_visuals(b, 0) + pile_visuals(
        b,
        1,
    ) + pile_visuals(b, 2) + pile_visuals(b, 3) + pile_visuals(b, 4) + pile_visuals(b, 5)
        + pile_visuals(b, 6)
}

/// Two boards with the same card topology: every zone holds the
/// same cards and the face-down counts agree. The visual state is
/// not part of the topology.
pub open spec fn same_topology(a: Board, b: Board) -> bool {
    &&& b.stock@ == a.stock@
    &&& b.waste@ == a.waste@
    &&& b.foundations@ == a.foundations@
    &&& b.tableau@ == a.tableau@
    &&& b.face_down@ == a.face_down@
}

/// The reconciler is a pure function of the topology: reconciling
/// twice with no intervening mutation, or reconciling again after a
/// rejected move, yields the identical visual state.
pub proof fn lemma_reconcile_idempotent(a: Board, b: Board)
    requires
        same_topology(a, b),
    ensures
        layout_spec(a) == layout_spec(b),
{
    assert(stock_visuals(a) =~= stock_visuals(b));
    assert(waste_visuals(a) =~= waste_visuals(b));
    assert forall|f: int| 0 <= f < 4 implies #[trigger] foundation_visuals(a, f)
        == foundation_visuals(b, f) by {
        assert(a.foundation(f) == b.foundation(f));
        assert(foundation_visuals(a, f) =~= foundation_visuals(b, f));
    }
    assert forall|p: int| 0 <= p < 7 implies #[trigger] pile_visuals(a, p) == pile_visuals(
        b,
        p,
    ) by {
        assert(a.pile(p) == b.pile(p));
        assert(a.fdown(p) == b.fdown(p));
        assert(pile_visuals(a, p) =~= pile_visuals(b, p));
    }
}

impl Board {
    /// Lays out the stock: one face-down heap at the anchor.
    pub fn format_stock(&self) -> (out: Vec<CardVisual>)
        requires
            self.wf(),
        ensures
            out@ == stock_visuals(*self),
    {
        let mut out: Vec<CardVisual> = Vec::new();
        let n = self.stock.len();
        let mut i: usize = 0;
        while i < n
            invariant
                self.wf(),
                n == self.stock@.len(),
                i <= n,
                out@.len() == i,
                forall|j: int| 0 <= j < i ==> out@[j] == stock_visual(*self, j),
            decreases n - i,
        {
            proof {
                assert(self.stock@.len() <= self.zone_cards().len());
            }
            let v = CardVisual {
                card: self.stock[i],
                zone: Zone::Stock,
                x: 0,
                y: 0,
                z: i as i32,
                visible: true,
                face_up: false,
                pickable: i == n - 1,
            };
            out.push(v);
            i = i + 1;
        }
        proof {
            assert(out@ =~= stock_visuals(*self));
        }
        out
    }

    /// Lays out the waste: cards collapse onto the anchor and only
    /// the top card shows, face up and pickable.
    pub fn format_waste(&self) -> (out: Vec<CardVisual>)
        requires
            self.wf(),
        ensures
            out@ == waste_visuals(*self),
    {
        let mut out: Vec<CardVisual> = Vec::new();
        let n = self.waste.len();
        let mut i: usize = 0;
        while i < n
            invariant
                self.wf(),
                n == self.waste@.len(),
                i <= n,
                out@.len() == i,
                forall|j: int| 0 <= j < i ==> out@[j] == waste_visual(*self, j),
            decreases n - i,
        {
            proof {
                assert(self.waste@.len() <= self.zone_cards().len());
            }
            let v = CardVisual {
                card: self.waste[i],
                zone: Zone::Waste,
                x: 0,
                y: 0,
                z: i as i32,
                visible: i == n - 1,
                face_up: true,
                pickable: i == n - 1,
            };
            out.push(v);
            i = i + 1;
        }
        proof {
            assert(out@ =~= waste_visuals(*self));
        }
        out
    }

    /// Lays out the four foundations: each chain collapses onto its
    /// anchor and only the top card shows, face up and pickable.
    pub fn format_foundation(&self) -> (out: Vec<CardVisual>)
        requires
            self.wf(),
        ensures
            out@ == foundation_visuals(*self, 0) + foundation_visuals(*self, 1)
                + foundation_visuals(*self, 2) + foundation_visuals(*self, 3),
    {
        let mut out: Vec<CardVisual> = Vec::new();
        let mut f: usize = 0;
        while f < 4
            invariant
                self.wf(),
                f <= 4,
                out@ == prefix_foundation_visuals(*self, f as int),
            decreases 4 - f,
        {
            let suit = crate::card::suit_for_index(f);
            let n = self.foundations[f].len();
            let mut i: usize = 0;
            let ghost pre = out@;
            while i < n
                invariant
                    self.wf(),
                    f < 4,
                    suit == suit_of_index(f as int),
                    n == self.foundation(f as int).len(),
                    i <= n,
                    out@.len() == pre.len() + i,
                    out@ =~= pre + foundation_visuals(*self, f as int).take(i as int),
                decreases n - i,
            {
                proof {
                    assert(self.foundation(f as int).len() <= self.zone_cards().len());
                }
                let v = CardVisual {
                    card: self.foundations[f][i],
                    zone: Zone::Foundation(suit),
                    x: 0,
                    y: 0,
                    z: i as i32,
                    visible: i == n - 1,
                    face_up: true,
                    pickable: i == n - 1,
                };
                out.push(v);
                proof {
                    assert(out@ =~= pre + foundation_visuals(*self, f as int).take(i + 1));
                }
                i = i + 1;
            }
            proof {
                assert(foundation_visuals(*self, f as int).take(n as int) =~= foundation_visuals(
                    *self,
                    f as int,
                ));
                assert(out@ =~= prefix_foundation_visuals(*self, f as int + 1));
            }
            f = f + 1;
        }
        proof {
            assert(prefix_foundation_visuals(*self, 1) =~= prefix_foundation_visuals(*self, 0)
                + foundation_visuals(*self, 0));
            assert(prefix_foundation_visuals(*self, 2) =~= prefix_foundation_visuals(*self, 1)
                + foundation_visuals(*self, 1));
            assert(prefix_foundation_visuals(*self, 3) =~= prefix_foundation_visuals(*self, 2)
                + foundation_visuals(*self, 2));
            assert(prefix_foundation_visuals(*self, 4) =~= prefix_foundation_visuals(*self, 3)
                + foundation_visuals(*self, 3));
            assert(out@ =~= foundation_visuals(*self, 0) + foundation_visuals(*self, 1)
                + foundation_visuals(*self, 2) + foundation_visuals(*self, 3));
        }
        out
    }

    /// Lays out the seven tableau piles: each pile fans out
    /// downward, face-down cards below the pile's face-down count,
    /// face-up cards at or above it.
    pub fn format_piles(&self) -> (out: Vec<CardVisual>)
        requires
            self.wf(),
        ensures
            out@ == pile_visuals(*self, 0) + pile_visuals(*self, 1) + pile_visuals(*self, 2)
                + pile_visuals(*self, 3) + pile_visuals(*self, 4) + pile_visuals(*self, 5)
                + pile_visuals(*self, 6),
    {
        let mut out: Vec<CardVisual> = Vec::new();
        let mut p: usize = 0;
        while p < 7
            invariant
                self.wf(),
                p <= 7,
                out@ == prefix_pile_visuals(*self, p as int),
            decreases 7 - p,
        {
            let n = self.tableau[p].len();
            let fd = self.face_down[p];
            let mut i: usize = 0;
            let ghost pre = out@;
            while i < n
                invariant
                    self.wf(),
                    p < 7,
                    n == self.pile(p as int).len(),
                    fd == self.fdown(p as int),
                    i <= n,
                    out@.len() == pre.len() + i,
                    out@ =~= pre + pile_visuals(*self, p as int).take(i as int),
                decreases n - i,
            {
                proof {
                    assert(self.pile(p as int).len() <= self.zone_cards().len());
                    assert(n <= 52);
                    assert(i < 52);
                }
                let yy: i32 = (i as i32) * 50;
                let v = CardVisual {
                    card: self.tableau[p][i],
                    zone: Zone::Tableau(p),
                    x: 0,
                    y: 0 - yy,
                    z: i as i32,
                    visible: true,
                    face_up: i >= fd,
                    pickable: i >= fd,
                };
                out.push(v);
                proof {
                    assert(out@ =~= pre + pile_visuals(*self, p as int).take(i + 1));
                }
                i = i + 1;
            }
            proof {
                assert(pile_visuals(*self, p as int).take(n as int) =~= pile_visuals(
                    *self,
                    p as int,
                ));
                assert(out@ =~= prefix_pile_visuals(*self, p as int + 1));
            }
            p = p + 1;
        }
        proof {
            assert(prefix_pile_visuals(*self, 1) =~= prefix_pile_visuals(*self, 0) + pile_visuals(
                *self,
                0,
            ));
            assert(prefix_pile_visuals(*self, 2) =~= prefix_pile_visuals(*self, 1) + pile_visuals(
                *self,
                1,
            ));
            assert(prefix_pile_visuals(*self, 3) =~= prefix_pile_visuals(*self, 2) + pile_visuals(
                *self,
                2,
            ));
            assert(prefix_pile_visuals(*self, 4) =~= prefix_pile_visuals(*self, 3) + pile_visuals(
                *self,
                3,
            ));
            assert(prefix_pile_visuals(*self, 5) =~= prefix_pile_visuals(*self, 4) + pile_visuals(
                *self,
                4,
            ));
            assert(prefix_pile_visuals(*self, 6) =~= prefix_pile_visuals(*self, 5) + pile_visuals(
                *self,
                5,
            ));
            assert(prefix_pile_visuals(*self, 7) =~= prefix_pile_visuals(*self, 6) + pile_visuals(
                *self,
                6,
            ));
            assert(out@ =~= pile_visuals(*self, 0) + pile_visuals(*self, 1) + pile_visuals(
                *self,
                2,
            ) + pile_visuals(*self, 3) + pile_visuals(*self, 4) + pile_visuals(*self, 5)
                + pile_visuals(*self, 6));
        }
        out
    }

    /// Recomputes the visual state of every card on the board, zone
    /// by zone, from the topology alone. Invoked after every
    /// accepted move; after a rejected move it reproduces the
    /// previous layout unchanged, which snaps the dragged card back.
    pub fn reconcile(&self) -> (out: Vec<CardVisual>)
        requires
            self.wf(),
        ensures
            out@ == layout_spec(*self),
    {
        let mut out = self.format_stock();
        let mut w = self.format_waste();
        out.append(&mut w);
        let mut fo = self.format_foundation();
        out.append(&mut fo);
        let mut pi = self.format_piles();
        out.append(&mut pi);
        proof {
            assert(out@ =~= layout_spec(*self));
        }
        out
    }
}

/// The concatenated visuals of the foundations below `f`.
pub open spec fn prefix_foundation_visuals(b: Board, f: int) -> Seq<CardVisual>
    decreases f,
{
    if f <= 0 {
        Seq::empty()
    } else {
        prefix_foundation_visuals(b, f - 1) + foundation_visuals(b, f - 1)
    }
}

/// The concatenated visuals of the piles below `p`.
pub open spec fn prefix_pile_visuals(b: Board, p: int) -> Seq<CardVisual>
    decreases p,
{
    if p <= 0 {
        Seq::empty()
    } else {
        prefix_pile_visuals(b, p - 1) + pile_visuals(b, p - 1)
    }
}

} // verus!
