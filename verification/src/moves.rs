use vstd::prelude::*;

use crate::board::{
    board_multiset, lemma_to_multiset_add, lemma_zone_cards_multiset, seq_cards_ok, Board, Zone,
};
use crate::card::{card_ok, colors_alternate, suit_index, suit_index_spec, suit_of_index, Card, Suit};

verus! {

/// The outcome of a proposed move: an illegal move is a normal
/// rejected outcome, not an error.
#[derive(Copy, Clone, PartialEq, Eq, Structural, Debug)]
pub enum MoveOutcome {
    Accepted,
    Rejected,
}

/// The first index at or after `i` where `s` holds `c`, or -1 if
/// there is none.
pub open spec fn find_from(s: Seq<Card>, c: Card, i: int) -> int
    decreases s.len() - i,
{
    if i < 0 || i >= s.len() {
        -1
    } else if s[i] == c {
        i
    } else {
        find_from(s, c, i + 1)
    }
}

pub proof fn lemma_find_from(s: Seq<Card>, c: Card, i: int)
    requires
        0 <= i <= s.len(),
    ensures
        ({
            let r = find_from(s, c, i);
            &&& (r == -1 <==> forall|j: int| i <= j < s.len() ==> s[j] != c)
            &&& (r >= 0 ==> i <= r < s.len() && s[r] == c && forall|j: int| i <= j < r ==> s[j]
                != c)
        }),
    decreases s.len() - i,
{
    if i < s.len() && s[i] != c {
        lemma_find_from(s, c, i + 1);
    }
}

impl Board {
    /// The index in pile `p` where the chain headed by `c` starts:
    /// the first face-up occurrence of `c`, or -1 if there is none.
    pub open spec fn chain_start(self, p: int, c: Card) -> int {
        find_from(self.pile(p), c, self.fdown(p))
    }

    /// Whether card `c` lies face up somewhere in tableau pile `p`.
    pub open spec fn face_up_in_pile(self, c: Card, p: int) -> bool {
        self.chain_start(p, c) >= 0
    }

    /// The first tableau pile at or after `p` holding `c` face up,
    /// or -1 if there is none.
    pub open spec fn pile_source_from(self, c: Card, p: int) -> int
        decreases 7 - p,
    {
        if p < 0 || p >= 7 {
            -1
        } else if self.face_up_in_pile(c, p) {
            p
        } else {
            self.pile_source_from(c, p + 1)
        }
    }

    /// The tableau pile a drag of `c` would take it from, or -1.
    pub open spec fn source_pile(self, c: Card) -> int {
        self.pile_source_from(c, 0)
    }

    /// Whether `c` is the top of the waste.
    pub open spec fn waste_top_is(self, c: Card) -> bool {
        self.waste@.len() > 0 && self.waste@.last() == c
    }

    /// The first foundation at or after `f` whose top card is `c`,
    /// or -1 if there is none.
    pub open spec fn foundation_top_from(self, c: Card, f: int) -> int
        decreases 4 - f,
    {
        if f < 0 || f >= 4 {
            -1
        } else if self.foundation(f).len() > 0 && self.foundation(f).last() == c {
            f
        } else {
            self.foundation_top_from(c, f + 1)
        }
    }

    /// The foundation a drag of `c` would take it from, or -1.
    pub open spec fn source_foundation(self, c: Card) -> int {
        self.foundation_top_from(c, 0)
    }

    /// The source zones are searched in a fixed order: tableau piles
    /// first, then the waste top, then the foundation tops.
    pub open spec fn source_is_pile(self, c: Card) -> bool {
        self.source_pile(c) >= 0
    }

    pub open spec fn source_is_waste(self, c: Card) -> bool {
        !self.source_is_pile(c) && self.waste_top_is(c)
    }

    pub open spec fn source_is_foundation(self, c: Card) -> bool {
        &&& !self.source_is_pile(c)
        &&& !self.waste_top_is(c)
        &&& self.source_foundation(c) >= 0
    }

    /// Whether `c` can be picked up at all: it lies face up in a
    /// tableau pile, or it is the visible top of the waste or of a
    /// foundation.
    pub open spec fn draggable(self, c: Card) -> bool {
        ||| self.source_is_pile(c)
        ||| self.waste_top_is(c)
        ||| self.source_foundation(c) >= 0
    }

    /// Whether `c` is the top of its chain, with nothing stacked on
    /// it; only such a card may go to a foundation.
    pub open spec fn is_chain_top(self, c: Card) -> bool {
        if self.source_is_pile(c) {
            self.chain_start(self.source_pile(c), c) == self.pile(self.source_pile(c)).len() - 1
        } else {
            self.waste_top_is(c) || self.source_foundation(c) >= 0
        }
    }

    /// The chain that moves when `c` is dragged: the face-up suffix
    /// of its pile from `c` upward, or `c` alone from the waste or a
    /// foundation.
    pub open spec fn moved_chain(self, c: Card) -> Seq<Card> {
        if self.source_is_pile(c) {
            let q = self.source_pile(c);
            self.pile(q).skip(self.chain_start(q, c))
        } else {
            seq![c]
        }
    }

    /// The decision table of the move-legality engine, evaluated
    /// against the zone the drop target belongs to.
    ///
    /// * Occupied tableau pile: the dragged card must come from a
    ///   pickable spot, must not already be in that pile, and must
    ///   extend the pile's top card downward with alternating color.
    /// * Empty tableau pile: only a King may start it.
    /// * Foundation: the dragged card must be the top of its chain,
    ///   match the foundation's suit, and continue the ascending run
    ///   (an Ace on an empty foundation).
    /// * Stock, waste and every other target: rejected.
    pub open spec fn move_allowed(self, dragged: Card, target: Zone) -> bool {
        match target {
            Zone::Tableau(p) => {
                &&& p < 7
                &&& self.draggable(dragged)
                &&& !self.pile(p as int).contains(dragged)
                &&& if self.pile(p as int).len() > 0 {
                    &&& colors_alternate(dragged, self.pile(p as int).last())
                    &&& self.pile(p as int).last().rank == dragged.rank + 1
                } else {
                    dragged.rank == 13
                }
            },
            Zone::Foundation(s) => {
                let f = suit_index_spec(s);
                &&& self.is_chain_top(dragged)
                &&& dragged.suit == s
                &&& if self.foundation(f).len() > 0 {
                    dragged.rank == self.foundation(f).last().rank + 1
                } else {
                    dragged.rank == 1
                }
            },
            _ => false,
        }
    }
}

impl Board {
    /// The first tableau pile at or after `p` holding `c` anywhere,
    /// face up or face down, or -1 if there is none.
    pub open spec fn pile_holding_from(self, c: Card, p: int) -> int
        decreases 7 - p,
    {
        if p < 0 || p >= 7 {
            -1
        } else if self.pile(p).contains(c) {
            p
        } else {
            self.pile_holding_from(c, p + 1)
        }
    }

    /// The first foundation at or after `f` holding `c` anywhere, or
    /// -1 if there is none.
    pub open spec fn foundation_holding_from(self, c: Card, f: int) -> int
        decreases 4 - f,
    {
        if f < 0 || f >= 4 {
            -1
        } else if self.foundation(f).contains(c) {
            f
        } else {
            self.foundation_holding_from(c, f + 1)
        }
    }

    /// The zone that a drop target card belongs to, in the drop
    /// dispatcher's priority order: a tableau pile wins over a
    /// foundation, which wins over the waste and the stock.
    pub open spec fn drop_zone_of(self, c: Card) -> Option<Zone> {
        if self.pile_holding_from(c, 0) >= 0 {
            Some(Zone::Tableau(self.pile_holding_from(c, 0) as usize))
        } else if self.foundation_holding_from(c, 0) >= 0 {
            Some(Zone::Foundation(suit_of_index(self.foundation_holding_from(c, 0))))
        } else if self.waste@.contains(c) {
            Some(Zone::Waste)
        } else if self.stock@.contains(c) {
            Some(Zone::Stock)
        } else {
            None
        }
    }
}

/// All tableau piles other than `p1` and `p2` hold the same cards in
/// `b` as in `a`.
pub open spec fn piles_same_except(a: Board, b: Board, p1: int, p2: int) -> bool {
    forall|p: int| 0 <= p < 7 && p != p1 && p != p2 ==> #[trigger] b.pile(p) == a.pile(p)
}

/// All foundations other than `f1` hold the same cards in `b` as in
/// `a`.
pub open spec fn foundations_same_except(a: Board, b: Board, f1: int) -> bool {
    forall|f: int| 0 <= f < 4 && f != f1 ==> #[trigger] b.foundation(f) == a.foundation(f)
}

/// How an accepted move changes the board: the dragged chain leaves
/// its source zone and lands on the target, and nothing else moves.
/// An accepted foundation move never takes its card from another
/// foundation: within one suit the rank cannot rise by one from top
/// to top.
pub open spec fn move_applied(a: Board, b: Board, c: Card, target: Zone) -> bool {
    &&& b.face_down@ == a.face_down@
    &&& b.tableau@.len() == 7
    &&& b.foundations@.len() == 4
    &&& match target {
        Zone::Tableau(tp) => {
            let p = tp as int;
            &&& b.pile(p) == a.pile(p) + a.moved_chain(c)
            &&& b.stock@ == a.stock@
            &&& if a.source_is_pile(c) {
                let q = a.source_pile(c);
                &&& b.pile(q) == a.pile(q).take(a.chain_start(q, c))
                &&& piles_same_except(a, b, p, q)
                &&& b.waste@ == a.waste@
                &&& foundations_same_except(a, b, -1)
            } else if a.source_is_waste(c) {
                &&& b.waste@ == a.waste@.drop_last()
                &&& piles_same_except(a, b, p, p)
                &&& foundations_same_except(a, b, -1)
            } else {
                let f = a.source_foundation(c);
                &&& b.foundation(f) == a.foundation(f).drop_last()
                &&& piles_same_except(a, b, p, p)
                &&& b.waste@ == a.waste@
                &&& foundations_same_except(a, b, f)
            }
        },
        Zone::Foundation(s) => {
            let t = suit_index_spec(s);
            &&& !a.source_is_foundation(c)
            &&& b.foundation(t) == a.foundation(t).push(c)
            &&& b.stock@ == a.stock@
            &&& foundations_same_except(a, b, t)
            &&& if a.source_is_pile(c) {
                let q = a.source_pile(c);
                &&& b.pile(q) == a.pile(q).drop_last()
                &&& piles_same_except(a, b, q, q)
                &&& b.waste@ == a.waste@
            } else {
                &&& b.waste@ == a.waste@.drop_last()
                &&& piles_same_except(a, b, -1, -1)
            }
        },
        _ => false,
    }
}

/// Where a dragged card would be taken from.
#[derive(Copy, Clone, PartialEq, Eq, Structural, Debug)]
enum Src {
    Pile(usize, usize),
    WasteTop,
    Foundation(usize),
}

/// Whether the vector holds the card.
fn vec_has(v: &Vec<Card>, c: Card) -> (r: bool)
    ensures
        r == v@.contains(c),
{
    let mut i: usize = 0;
    while i < v.len()
        invariant
            i <= v@.len(),
            forall|j: int| 0 <= j < i ==> v@[j] != c,
        decreases v@.len() - i,
    {
        if v[i] == c {
            return true;
        }
        i = i + 1;
    }
    false
}

impl Board {
    /// Searches one pile for a face-up occurrence of `c`.
    fn find_in_pile(&self, q: usize, c: Card) -> (r: Option<usize>)
        requires
            self.wf(),
            q < 7,
        ensures
            match r {
                Some(i) => {
                    &&& self.face_up_in_pile(c, q as int)
                    &&& i == self.chain_start(q as int, c)
                    &&& self.fdown(q as int) <= i < self.pile(q as int).len()
                    &&& self.pile(q as int)[i as int] == c
                },
                None => !self.face_up_in_pile(c, q as int),
            },
    {
        let pile = &self.tableau[q];
        let mut i: usize = self.face_down[q];
        proof {
            assert(self.fdown(q as int) <= self.pile(q as int).len());
        }
        while i < pile.len()
            invariant
                self.wf(),
                q < 7,
                pile@ == self.pile(q as int),
                self.fdown(q as int) <= i <= pile@.len(),
                self.chain_start(q as int, c) == find_from(self.pile(q as int), c, i as int),
            decreases pile@.len() - i,
        {
            if pile[i] == c {
                proof {
                    assert(find_from(self.pile(q as int), c, i as int) == i);
                }
                return Some(i);
            }
            proof {
                assert(find_from(self.pile(q as int), c, i as int) == find_from(
                    self.pile(q as int),
                    c,
                    i as int + 1,
                ));
            }
            i = i + 1;
        }
        proof {
            assert(find_from(self.pile(q as int), c, i as int) == -1);
        }
        None
    }

    /// Resolves where a drag of `c` would take it from: the piles
    /// are searched first, then the waste top, then the foundation
    /// tops.
    fn find_source(&self, c: Card) -> (r: Option<Src>)
        requires
            self.wf(),
        ensures
            match r {
                Some(Src::Pile(q, i)) => {
                    &&& self.source_is_pile(c)
                    &&& q < 7
                    &&& q as int == self.source_pile(c)
                    &&& i as int == self.chain_start(q as int, c)
                    &&& self.fdown(q as int) <= i < self.pile(q as int).len()
                    &&& self.pile(q as int)[i as int] == c
                },
                Some(Src::WasteTop) => self.source_is_waste(c),
                Some(Src::Foundation(f)) => {
                    &&& self.source_is_foundation(c)
                    &&& f < 4
                    &&& f as int == self.source_foundation(c)
                    &&& self.foundation(f as int).len() > 0
                    &&& self.foundation(f as int).last() == c
                },
                None => !self.draggable(c),
            },
    {
        let mut q: usize = 0;
        while q < 7
            invariant
                self.wf(),
                q <= 7,
                self.source_pile(c) == self.pile_source_from(c, q as int),
            decreases 7 - q,
        {
            if let Some(i) = self.find_in_pile(q, c) {
                proof {
                    assert(self.pile_source_from(c, q as int) == q);
                }
                return Some(Src::Pile(q, i));
            }
            proof {
                assert(self.pile_source_from(c, q as int) == self.pile_source_from(
                    c,
                    q as int + 1,
                ));
            }
            q = q + 1;
        }
        proof {
            assert(self.pile_source_from(c, q as int) == -1);
        }
        if self.waste.len() > 0 {
            let top = self.waste[self.waste.len() - 1];
            if top == c {
                return Some(Src::WasteTop);
            }
        }
        let mut f: usize = 0;
        while f < 4
            invariant
                self.wf(),
                f <= 4,
                !self.source_is_pile(c),
                !self.waste_top_is(c),
                self.source_foundation(c) == self.foundation_top_from(c, f as int),
            decreases 4 - f,
        {
            let flen = self.foundations[f].len();
            if flen > 0 {
                let top = self.foundations[f][flen - 1];
                if top == c {
                    proof {
                        assert(self.foundation_top_from(c, f as int) == f);
                    }
                    return Some(Src::Foundation(f));
                }
            }
            proof {
                assert(self.foundation_top_from(c, f as int) == self.foundation_top_from(
                    c,
                    f as int + 1,
                ));
            }
            f = f + 1;
        }
        proof {
            assert(self.foundation_top_from(c, f as int) == -1);
        }
        None
    }

    /// Whether pile `p` holds `c` anywhere, face up or face down.
    fn pile_has(&self, p: usize, c: Card) -> (r: bool)
        requires
            self.wf(),
            p < 7,
        ensures
            r == self.pile(p as int).contains(c),
    {
        let pile = &self.tableau[p];
        let mut i: usize = 0;
        while i < pile.len()
            invariant
                pile@ == self.pile(p as int),
                i <= pile@.len(),
                forall|j: int| 0 <= j < i ==> self.pile(p as int)[j] != c,
            decreases pile@.len() - i,
        {
            if pile[i] == c {
                return true;
            }
            i = i + 1;
        }
        false
    }

    /// The pure legality decision: evaluates the decision table
    /// without touching the board.
    pub fn evaluate_move(&self, dragged: Card, target: Zone) -> (r: MoveOutcome)
        requires
            self.wf(),
        ensures
            r == MoveOutcome::Accepted <==> self.move_allowed(dragged, target),
    {
        match target {
            Zone::Tableau(p) => {
                if p >= 7 {
                    return MoveOutcome::Rejected;
                }
                if self.pile_has(p, dragged) {
                    return MoveOutcome::Rejected;
                }
                let plen = self.tableau[p].len();
                let target_ok = if plen > 0 {
                    let top = self.tableau[p][plen - 1];
                    let alternating = crate::card::card_is_red(&dragged) != crate::card::card_is_red(
                        &top,
                    );
                    alternating && top.rank as u16 == dragged.rank as u16 + 1
                } else {
                    dragged.rank == 13
                };
                if !target_ok {
                    return MoveOutcome::Rejected;
                }
                match self.find_source(dragged) {
                    Some(_) => MoveOutcome::Accepted,
                    None => MoveOutcome::Rejected,
                }
            },
            Zone::Foundation(s) => {
                let f = suit_index(s);
                let single = match self.find_source(dragged) {
                    Some(Src::Pile(q, i)) => self.tableau[q].len() == i + 1,
                    Some(Src::WasteTop) => true,
                    Some(Src::Foundation(_)) => true,
                    None => false,
                };
                if !single {
                    return MoveOutcome::Rejected;
                }
                if !(dragged.suit == s) {
                    return MoveOutcome::Rejected;
                }
                let flen = self.foundations[f].len();
                let rank_ok = if flen > 0 {
                    let top = self.foundations[f][flen - 1];
                    dragged.rank as u16 == top.rank as u16 + 1
                } else {
                    dragged.rank == 1
                };
                if rank_ok {
                    MoveOutcome::Accepted
                } else {
                    MoveOutcome::Rejected
                }
            },
            _ => MoveOutcome::Rejected,
        }
    }

    /// The pile-to-pile case of an accepted move: the chain from
    /// index `i` of pile `q` has landed on pile `p`.
    #[verifier::rlimit(100)]
    proof fn lemma_tableau_move_ok(self, a: Board, dragged: Card, p: usize, q: usize, i: usize)
        requires
            a.inv(),
            a.move_allowed(dragged, Zone::Tableau(p)),
            a.source_is_pile(dragged),
            q as int == a.source_pile(dragged),
            i as int == a.chain_start(q as int, dragged),
            a.fdown(q as int) <= i as int,
            (i as int) < a.pile(q as int).len(),
            a.pile(q as int)[i as int] == dragged,
            p < 7,
            q < 7,
            q as int != p as int,
            self.tableau@.len() == 7,
            self.foundations@ == a.foundations@,
            self.stock@ == a.stock@,
            self.waste@ == a.waste@,
            self.face_down@ == a.face_down@,
            self.pile(q as int) == a.pile(q as int).take(i as int),
            self.pile(p as int) == a.pile(p as int) + a.pile(q as int).skip(i as int),
            forall|x: int| 0 <= x < 7 && x != p && x != q ==> self.tableau@[x] == a.tableau@[x],
        ensures
            self.inv(),
            move_applied(a, self, dragged, Zone::Tableau(p)),
            self.zone_cards().to_multiset() == a.zone_cards().to_multiset(),
    {
        broadcast use vstd::multiset::group_multiset_axioms;
        broadcast use vstd::seq_lib::group_to_multiset_ensures;

        let qi = q as int;
        let pi = p as int;
        let ii = i as int;
        let oq = a.pile(qi);
        let op = a.pile(pi);
        let opl = op.len() as int;
        assert forall|x: int| 0 <= x < 7 && x != pi && x != qi implies (#[trigger] self.pile(x))
            == a.pile(x) by {
            assert(self.tableau@[x] == a.tableau@[x]);
        }
        assert forall|f: int| 0 <= f < 4 implies (#[trigger] self.foundation(f)) == a.foundation(
            f,
        ) by {}
        // the cards of the board are unchanged as a multiset
        assert((oq.take(ii) + oq.skip(ii)) =~= oq);
        lemma_to_multiset_add(oq.take(ii), oq.skip(ii));
        lemma_to_multiset_add(op, oq.skip(ii));
        lemma_zone_cards_multiset(a);
        lemma_zone_cards_multiset(self);
        assert(board_multiset(self) =~= board_multiset(a));
        assert(self.zone_cards().to_multiset().len() == a.zone_cards().to_multiset().len());
        assert(self.zone_cards().len() == self.zone_cards().to_multiset().len());
        assert(a.zone_cards().len() == a.zone_cards().to_multiset().len());
        assert(self.zone_cards().len() == a.zone_cards().len());
        // the face-down counts still fit under the piles
        assert forall|x: int| 0 <= x < 7 implies #[trigger] self.fdown(x) <= self.pile(x).len() by {
            assert(a.fdown(x) <= a.pile(x).len());
            if x != qi && x != pi {
                assert(self.pile(x) == a.pile(x));
            }
        }
        // every rank is still well-formed
        assert forall|x: int| 0 <= x < 7 implies seq_cards_ok(#[trigger] self.pile(x)) by {
            if x == qi {
                assert forall|k: int| 0 <= k < self.pile(x).len() implies card_ok(
                    #[trigger] self.pile(x)[k],
                ) by {
                    assert(self.pile(x)[k] == oq[k]);
                }
            } else if x == pi {
                assert forall|k: int| 0 <= k < self.pile(x).len() implies card_ok(
                    #[trigger] self.pile(x)[k],
                ) by {
                    if k < opl {
                        assert(self.pile(x)[k] == op[k]);
                    } else {
                        assert(self.pile(x)[k] == oq[ii + k - opl]);
                    }
                }
            }
        }
        // the face-up suffix of every pile is still a valid run
        assert forall|pp: int, x: int, y: int|
            0 <= pp < 7 && self.fdown(pp) <= x && y == x + 1 && y < self.pile(pp).len() implies {
                &&& colors_alternate(#[trigger] self.pile(pp)[y], #[trigger] self.pile(pp)[x])
                &&& self.pile(pp)[x].rank == self.pile(pp)[y].rank + 1
            } by {
            if pp == qi {
                assert(self.pile(pp)[x] == oq[x]);
                assert(self.pile(pp)[y] == oq[y]);
                assert(colors_alternate(a.pile(qi)[y], a.pile(qi)[x]));
            } else if pp == pi {
                if y < opl {
                    assert(self.pile(pp)[x] == op[x]);
                    assert(self.pile(pp)[y] == op[y]);
                    assert(colors_alternate(a.pile(pi)[y], a.pile(pi)[x]));
                } else if x < opl {
                    assert(x == opl - 1);
                    assert(self.pile(pp)[x] == op[opl - 1]);
                    assert(op[opl - 1] == op.last());
                    assert(self.pile(pp)[y] == oq[ii]);
                } else {
                    let k = ii + (x - opl);
                    assert(self.pile(pp)[x] == oq[k]);
                    assert(self.pile(pp)[y] == oq[k + 1]);
                    assert(colors_alternate(a.pile(qi)[k + 1], a.pile(qi)[k]));
                }
            } else {
                assert(self.pile(pp) == a.pile(pp));
                assert(self.pile(pp)[x] == a.pile(pp)[x]);
                assert(self.pile(pp)[y] == a.pile(pp)[y]);
                assert(colors_alternate(a.pile(pp)[y], a.pile(pp)[x]));
            }
        }
        assert(self.pile(pi) == op + a.moved_chain(dragged));
    }

    /// A single card taken from the waste top has landed on pile `p`.
    #[verifier::rlimit(100)]
    proof fn lemma_waste_to_tableau_ok(self, a: Board, dragged: Card, p: usize)
        requires
            a.inv(),
            a.move_allowed(dragged, Zone::Tableau(p)),
            a.source_is_waste(dragged),
            a.waste@.len() > 0,
            a.waste@.last() == dragged,
            p < 7,
            self.tableau@.len() == 7,
            self.foundations@ == a.foundations@,
            self.stock@ == a.stock@,
            self.waste@ == a.waste@.drop_last(),
            self.face_down@ == a.face_down@,
            self.pile(p as int) == a.pile(p as int) + seq![dragged],
            forall|x: int| 0 <= x < 7 && x != p ==> self.tableau@[x] == a.tableau@[x],
        ensures
            self.inv(),
            move_applied(a, self, dragged, Zone::Tableau(p)),
            self.zone_cards().to_multiset() == a.zone_cards().to_multiset(),
    {
        broadcast use vstd::multiset::group_multiset_axioms;
        broadcast use vstd::seq_lib::group_to_multiset_ensures;

        let pi = p as int;
        let op = a.pile(pi);
        let opl = op.len() as int;
        assert forall|x: int| 0 <= x < 7 && x != pi implies (#[trigger] self.pile(x)) == a.pile(
            x,
        ) by {
            assert(self.tableau@[x] == a.tableau@[x]);
        }
        assert forall|f: int| 0 <= f < 4 implies (#[trigger] self.foundation(f)) == a.foundation(
            f,
        ) by {}
        assert(a.waste@.drop_last().push(dragged) =~= a.waste@);
        assert(a.waste@.drop_last().push(dragged).to_multiset() =~= a.waste@.drop_last().to_multiset().insert(dragged));
        assert((op + seq![dragged]) =~= op.push(dragged));
        assert(op.push(dragged).to_multiset() =~= op.to_multiset().insert(dragged));
        lemma_zone_cards_multiset(a);
        lemma_zone_cards_multiset(self);
        assert(board_multiset(self) =~= board_multiset(a));
        assert(self.zone_cards().to_multiset().len() == a.zone_cards().to_multiset().len());
        assert(self.zone_cards().len() == self.zone_cards().to_multiset().len());
        assert(a.zone_cards().len() == a.zone_cards().to_multiset().len());
        assert(self.zone_cards().len() == a.zone_cards().len());
        assert forall|x: int| 0 <= x < 7 implies #[trigger] self.fdown(x) <= self.pile(x).len() by {
            assert(a.fdown(x) <= a.pile(x).len());
            if x != pi {
                assert(self.pile(x) == a.pile(x));
            }
        }
        assert forall|x: int| 0 <= x < 7 implies seq_cards_ok(#[trigger] self.pile(x)) by {
            if x == pi {
                assert forall|k: int| 0 <= k < self.pile(x).len() implies card_ok(
                    #[trigger] self.pile(x)[k],
                ) by {
                    if k < opl {
                        assert(self.pile(x)[k] == op[k]);
                    } else {
                        assert(self.pile(x)[k] == dragged);
                    }
                }
            }
        }
        assert forall|k: int| 0 <= k < self.waste@.len() implies card_ok(
            #[trigger] self.waste@[k],
        ) by {
            assert(self.waste@[k] == a.waste@[k]);
        }
        assert forall|g: int, k: int|
            0 <= g < 4 && 0 <= k < self.foundation(g).len() implies (#[trigger] self.foundation(
                g,
            )[k]) == (Card {
                suit: suit_of_index(g),
                rank: (k + 1) as u8,
            }) by {
            assert(self.foundation(g) == a.foundation(g));
            assert(a.foundation(g)[k] == (Card { suit: suit_of_index(g), rank: (k + 1) as u8 }));
        }
        assert forall|pp: int, x: int, y: int|
            0 <= pp < 7 && self.fdown(pp) <= x && y == x + 1 && y < self.pile(pp).len() implies {
                &&& colors_alternate(#[trigger] self.pile(pp)[y], #[trigger] self.pile(pp)[x])
                &&& self.pile(pp)[x].rank == self.pile(pp)[y].rank + 1
            } by {
            if pp == pi {
                if y < opl {
                    assert(self.pile(pp)[x] == op[x]);
                    assert(self.pile(pp)[y] == op[y]);
                    assert(colors_alternate(a.pile(pi)[y], a.pile(pi)[x]));
                } else {
                    assert(x == opl - 1);
                    assert(self.pile(pp)[x] == op[opl - 1]);
                    assert(op[opl - 1] == op.last());
                    assert(self.pile(pp)[y] == dragged);
                }
            } else {
                assert(self.pile(pp) == a.pile(pp));
                assert(self.pile(pp)[x] == a.pile(pp)[x]);
                assert(self.pile(pp)[y] == a.pile(pp)[y]);
                assert(colors_alternate(a.pile(pp)[y], a.pile(pp)[x]));
            }
        }
        assert(self.pile(pi) == op + a.moved_chain(dragged));
    }

    /// A single card taken from a foundation top has landed on pile
    /// `p`.
    #[verifier::rlimit(100)]
    proof fn lemma_foundation_to_tableau_ok(self, a: Board, dragged: Card, p: usize, f: usize)
        requires
            a.inv(),
            a.move_allowed(dragged, Zone::Tableau(p)),
            a.source_is_foundation(dragged),
            f < 4,
            f as int == a.source_foundation(dragged),
            a.foundation(f as int).len() > 0,
            a.foundation(f as int).last() == dragged,
            p < 7,
            self.tableau@.len() == 7,
            self.foundations@.len() == 4,
            self.foundation(f as int) == a.foundation(f as int).drop_last(),
            forall|x: int| 0 <= x < 4 && x != f ==> self.foundations@[x] == a.foundations@[x],
            self.stock@ == a.stock@,
            self.waste@ == a.waste@,
            self.face_down@ == a.face_down@,
            self.pile(p as int) == a.pile(p as int) + seq![dragged],
            forall|x: int| 0 <= x < 7 && x != p ==> self.tableau@[x] == a.tableau@[x],
        ensures
            self.inv(),
            move_applied(a, self, dragged, Zone::Tableau(p)),
            self.zone_cards().to_multiset() == a.zone_cards().to_multiset(),
    {
        broadcast use vstd::multiset::group_multiset_axioms;
        broadcast use vstd::seq_lib::group_to_multiset_ensures;

        let pi = p as int;
        let fi = f as int;
        let op = a.pile(pi);
        let opl = op.len() as int;
        let of = a.foundation(fi);
        assert forall|x: int| 0 <= x < 7 && x != pi implies (#[trigger] self.pile(x)) == a.pile(
            x,
        ) by {
            assert(self.tableau@[x] == a.tableau@[x]);
        }
        assert forall|g: int| 0 <= g < 4 && g != fi implies (#[trigger] self.foundation(g))
            == a.foundation(g) by {
            assert(self.foundations@[g] == a.foundations@[g]);
        }
        assert(of.drop_last().push(dragged) =~= of);
        assert(of.drop_last().push(dragged).to_multiset() =~= of.drop_last().to_multiset().insert(
            dragged,
        ));
        assert((op + seq![dragged]) =~= op.push(dragged));
        assert(op.push(dragged).to_multiset() =~= op.to_multiset().insert(dragged));
        lemma_zone_cards_multiset(a);
        lemma_zone_cards_multiset(self);
        assert(board_multiset(self) =~= board_multiset(a));
        assert(self.zone_cards().to_multiset().len() == a.zone_cards().to_multiset().len());
        assert(self.zone_cards().len() == self.zone_cards().to_multiset().len());
        assert(a.zone_cards().len() == a.zone_cards().to_multiset().len());
        assert(self.zone_cards().len() == a.zone_cards().len());
        assert forall|x: int| 0 <= x < 7 implies #[trigger] self.fdown(x) <= self.pile(x).len() by {
            assert(a.fdown(x) <= a.pile(x).len());
            if x != pi {
                assert(self.pile(x) == a.pile(x));
            }
        }
        assert forall|x: int| 0 <= x < 7 implies seq_cards_ok(#[trigger] self.pile(x)) by {
            if x == pi {
                assert forall|k: int| 0 <= k < self.pile(x).len() implies card_ok(
                    #[trigger] self.pile(x)[k],
                ) by {
                    if k < opl {
                        assert(self.pile(x)[k] == op[k]);
                    } else {
                        assert(self.pile(x)[k] == dragged);
                        assert(card_ok(of[of.len() - 1]));
                    }
                }
            }
        }
        assert forall|g: int| 0 <= g < 4 implies seq_cards_ok(#[trigger] self.foundation(g)) by {
            if g == fi {
                assert forall|k: int| 0 <= k < self.foundation(g).len() implies card_ok(
                    #[trigger] self.foundation(g)[k],
                ) by {
                    assert(self.foundation(g)[k] == of[k]);
                }
            }
        }
        // the shortened foundation still ascends from the Ace
        assert forall|g: int, k: int|
            0 <= g < 4 && 0 <= k < self.foundation(g).len() implies (#[trigger] self.foundation(
                g,
            )[k]) == (Card {
                suit: crate::card::suit_of_index(g),
                rank: (k + 1) as u8,
            }) by {
            if g == fi {
                assert(self.foundation(g)[k] == of[k]);
            }
        }
        assert forall|pp: int, x: int, y: int|
            0 <= pp < 7 && self.fdown(pp) <= x && y == x + 1 && y < self.pile(pp).len() implies {
                &&& colors_alternate(#[trigger] self.pile(pp)[y], #[trigger] self.pile(pp)[x])
                &&& self.pile(pp)[x].rank == self.pile(pp)[y].rank + 1
            } by {
            if pp == pi {
                if y < opl {
                    assert(self.pile(pp)[x] == op[x]);
                    assert(self.pile(pp)[y] == op[y]);
                    assert(colors_alternate(a.pile(pi)[y], a.pile(pi)[x]));
                } else {
                    assert(x == opl - 1);
                    assert(self.pile(pp)[x] == op[opl - 1]);
                    assert(op[opl - 1] == op.last());
                    assert(self.pile(pp)[y] == dragged);
                }
            } else {
                assert(self.pile(pp) == a.pile(pp));
                assert(self.pile(pp)[x] == a.pile(pp)[x]);
                assert(self.pile(pp)[y] == a.pile(pp)[y]);
                assert(colors_alternate(a.pile(pp)[y], a.pile(pp)[x]));
            }
        }
        assert(self.pile(pi) == op + a.moved_chain(dragged));
    }

    /// A chain-top card has landed on the foundation of its suit;
    /// its source was pile `q` (when `from_pile` holds) or the waste
    /// top.
    #[verifier::rlimit(100)]
    proof fn lemma_to_foundation_ok(
        self,
        a: Board,
        dragged: Card,
        s: Suit,
        t: usize,
        from_pile: bool,
        q: usize,
    )
        requires
            a.inv(),
            a.move_allowed(dragged, Zone::Foundation(s)),
            t as int == suit_index_spec(s),
            from_pile ==> {
                &&& a.source_is_pile(dragged)
                &&& q < 7
                &&& q as int == a.source_pile(dragged)
                &&& a.pile(q as int).len() > 0
                &&& a.pile(q as int).last() == dragged
                &&& a.fdown(q as int) <= a.pile(q as int).len() - 1
                &&& self.pile(q as int) == a.pile(q as int).drop_last()
                &&& forall|x: int| 0 <= x < 7 && x != q ==> self.tableau@[x] == a.tableau@[x]
                &&& self.waste@ == a.waste@
            },
            !from_pile ==> {
                &&& a.source_is_waste(dragged)
                &&& a.waste@.len() > 0
                &&& a.waste@.last() == dragged
                &&& self.waste@ == a.waste@.drop_last()
                &&& forall|x: int| 0 <= x < 7 ==> self.tableau@[x] == a.tableau@[x]
            },
            self.tableau@.len() == 7,
            self.foundations@.len() == 4,
            self.foundation(t as int) == a.foundation(t as int).push(dragged),
            forall|x: int| 0 <= x < 4 && x != t ==> self.foundations@[x] == a.foundations@[x],
            self.stock@ == a.stock@,
            self.face_down@ == a.face_down@,
        ensures
            self.inv(),
            move_applied(a, self, dragged, Zone::Foundation(s)),
            self.zone_cards().to_multiset() == a.zone_cards().to_multiset(),
    {
        broadcast use vstd::multiset::group_multiset_axioms;
        broadcast use vstd::seq_lib::group_to_multiset_ensures;

        let ti = t as int;
        let qi = q as int;
        let of = a.foundation(ti);
        let ofl = of.len() as int;
        assert(suit_of_index(suit_index_spec(s)) == s);
        assert forall|x: int| 0 <= x < 7 && (from_pile ==> x != qi) implies (
        #[trigger] self.pile(x)) == a.pile(x) by {
            assert(self.tableau@[x] == a.tableau@[x]);
        }
        assert forall|g: int| 0 <= g < 4 && g != ti implies (#[trigger] self.foundation(g))
            == a.foundation(g) by {
            assert(self.foundations@[g] == a.foundations@[g]);
        }
        // the dragged card is not taken from a foundation
        assert(!a.source_is_foundation(dragged));
        // multiset bookkeeping
        assert(of.push(dragged).to_multiset() =~= of.to_multiset().insert(dragged));
        if from_pile {
            let oq = a.pile(qi);
            assert(oq.drop_last().push(dragged) =~= oq);
            assert(oq.drop_last().push(dragged).to_multiset() =~= oq.drop_last().to_multiset().insert(dragged));
        } else {
            assert(a.waste@.drop_last().push(dragged) =~= a.waste@);
            assert(a.waste@.drop_last().push(dragged).to_multiset() =~= a.waste@.drop_last().to_multiset().insert(dragged));
        }
        lemma_zone_cards_multiset(a);
        lemma_zone_cards_multiset(self);
        assert(board_multiset(self) =~= board_multiset(a));
        assert(self.zone_cards().to_multiset().len() == a.zone_cards().to_multiset().len());
        assert(self.zone_cards().len() == self.zone_cards().to_multiset().len());
        assert(a.zone_cards().len() == a.zone_cards().to_multiset().len());
        assert(self.zone_cards().len() == a.zone_cards().len());
        // the face-down counts still fit under the piles
        assert forall|x: int| 0 <= x < 7 implies #[trigger] self.fdown(x) <= self.pile(x).len() by {
            assert(a.fdown(x) <= a.pile(x).len());
            if !(from_pile && x == qi) {
                assert(self.pile(x) == a.pile(x));
            }
        }
        // the dragged card is well formed: it came off the board
        if from_pile {
            assert(card_ok(a.pile(qi)[a.pile(qi).len() - 1]));
        } else {
            assert(card_ok(a.waste@[a.waste@.len() - 1]));
        }
        // foundation lengths never pass 13, so ranks keep fitting
        if ofl > 0 {
            assert(of[ofl - 1] == (Card { suit: suit_of_index(ti), rank: ofl as u8 }));
            assert(card_ok(of[ofl - 1]));
            assert(ofl <= 52);
            assert(ofl as u8 == ofl);
        }
        assert forall|g: int, k: int|
            0 <= g < 4 && 0 <= k < self.foundation(g).len() implies (#[trigger] self.foundation(
                g,
            )[k]) == (Card {
                suit: crate::card::suit_of_index(g),
                rank: (k + 1) as u8,
            }) by {
            if g == ti {
                if k < ofl {
                    assert(self.foundation(g)[k] == of[k]);
                } else {
                    assert(self.foundation(g)[k] == dragged);
                    if ofl > 0 {
                        assert(of[ofl - 1] == (Card {
                            suit: suit_of_index(ti),
                            rank: ofl as u8,
                        }));
                    }
                }
            }
        }
        assert forall|g: int| 0 <= g < 4 implies seq_cards_ok(#[trigger] self.foundation(g)) by {
            assert forall|k: int| 0 <= k < self.foundation(g).len() implies card_ok(
                #[trigger] self.foundation(g)[k],
            ) by {}
        }
        assert forall|x: int| 0 <= x < 7 implies seq_cards_ok(#[trigger] self.pile(x)) by {
            if from_pile && x == qi {
                assert forall|k: int| 0 <= k < self.pile(x).len() implies card_ok(
                    #[trigger] self.pile(x)[k],
                ) by {
                    assert(self.pile(x)[k] == a.pile(qi)[k]);
                }
            }
        }
        assert forall|k: int| 0 <= k < self.waste@.len() implies card_ok(
            #[trigger] self.waste@[k],
        ) by {
            assert(self.waste@[k] == a.waste@[k]);
        }
        assert forall|pp: int, x: int, y: int|
            0 <= pp < 7 && self.fdown(pp) <= x && y == x + 1 && y < self.pile(pp).len() implies {
                &&& colors_alternate(#[trigger] self.pile(pp)[y], #[trigger] self.pile(pp)[x])
                &&& self.pile(pp)[x].rank == self.pile(pp)[y].rank + 1
            } by {
            if from_pile && pp == qi {
                assert(self.pile(pp)[x] == a.pile(pp)[x]);
                assert(self.pile(pp)[y] == a.pile(pp)[y]);
                assert(colors_alternate(a.pile(pp)[y], a.pile(pp)[x]));
            } else {
                assert(self.pile(pp) == a.pile(pp));
                assert(self.pile(pp)[x] == a.pile(pp)[x]);
                assert(self.pile(pp)[y] == a.pile(pp)[y]);
                assert(colors_alternate(a.pile(pp)[y], a.pile(pp)[x]));
            }
        }
    }

    /// Attempts the proposed move against the decision table. On
    /// acceptance the dragged card, together with everything stacked
    /// on it, leaves its source zone and lands on the target in one
    /// structural update; on rejection the board is untouched. The
    /// set of cards on the board never changes.
    pub fn attempt_move(&mut self, dragged: Card, target: Zone) -> (r: MoveOutcome)
        requires
            old(self).inv(),
        ensures
            final(self).inv(),
            r == MoveOutcome::Accepted <==> old(self).move_allowed(dragged, target),
            old(self).move_allowed(dragged, target) ==> move_applied(
                *old(self),
                *final(self),
                dragged,
                target,
            ),
            !old(self).move_allowed(dragged, target) ==> *final(self) == *old(self),
            final(self).zone_cards().to_multiset() == old(self).zone_cards().to_multiset(),
    {
        broadcast use vstd::multiset::group_multiset_axioms;
        broadcast use vstd::seq_lib::group_to_multiset_ensures;

        let ghost a = *self;
        let outcome = self.evaluate_move(dragged, target);
        if outcome == MoveOutcome::Rejected {
            return MoveOutcome::Rejected;
        }
        match target {
            Zone::Tableau(p) => {
                match self.find_source(dragged) {
                    Some(Src::Pile(q, i)) => {
                        proof {
                            assert(a.pile(q as int)[i as int] == dragged);
                            assert(a.pile(q as int).contains(dragged));
                            assert(q != p);
                        }
                        let mut qv = self.tableau.remove(q);
                        let mut chain = qv.split_off(i);
                        self.tableau.insert(q, qv);
                        proof {
                            assert(self.tableau@[q as int]@ =~= a.pile(q as int).take(i as int));
                            assert forall|x: int| 0 <= x < 7 && x != q implies self.tableau@[x]
                                == a.tableau@[x] by {}
                        }
                        let ghost t2 = *self;
                        let mut pv = self.tableau.remove(p);
                        pv.append(&mut chain);
                        self.tableau.insert(p, pv);
                        proof {
                            assert(self.pile(p as int) =~= a.pile(p as int) + a.pile(
                                q as int,
                            ).skip(i as int));
                            assert forall|x: int| 0 <= x < 7 && x != p implies self.tableau@[x]
                                == t2.tableau@[x] by {}
                            self.lemma_tableau_move_ok(a, dragged, p, q, i);
                        }
                        MoveOutcome::Accepted
                    },
                    Some(Src::WasteTop) => {
                        self.waste.pop();
                        let mut pv = self.tableau.remove(p);
                        pv.push(dragged);
                        self.tableau.insert(p, pv);
                        proof {
                            assert(self.pile(p as int) =~= a.pile(p as int) + seq![dragged]);
                            assert forall|x: int| 0 <= x < 7 && x != p implies self.tableau@[x]
                                == a.tableau@[x] by {}
                            self.lemma_waste_to_tableau_ok(a, dragged, p);
                        }
                        MoveOutcome::Accepted
                    },
                    Some(Src::Foundation(f)) => {
                        let mut fv = self.foundations.remove(f);
                        fv.pop();
                        self.foundations.insert(f, fv);
                        proof {
                            assert(self.foundations@[f as int]@ =~= a.foundation(
                                f as int,
                            ).drop_last());
                            assert forall|x: int| 0 <= x < 4 && x != f implies self.foundations@[x]
                                == a.foundations@[x] by {}
                        }
                        let ghost t2 = *self;
                        let mut pv = self.tableau.remove(p);
                        pv.push(dragged);
                        self.tableau.insert(p, pv);
                        proof {
                            assert(self.pile(p as int) =~= a.pile(p as int) + seq![dragged]);
                            assert forall|x: int| 0 <= x < 7 && x != p implies self.tableau@[x]
                                == a.tableau@[x] by {}
                            self.lemma_foundation_to_tableau_ok(a, dragged, p, f);
                        }
                        MoveOutcome::Accepted
                    },
                    None => {
                        proof {
                            assert(false);
                        }
                        MoveOutcome::Rejected
                    },
                }
            },
            Zone::Foundation(s) => {
                let t = suit_index(s);
                match self.find_source(dragged) {
                    Some(Src::Pile(q, i)) => {
                        proof {
                            assert(i as int == a.pile(q as int).len() - 1);
                        }
                        let mut qv = self.tableau.remove(q);
                        qv.pop();
                        self.tableau.insert(q, qv);
                        proof {
                            assert(self.tableau@[q as int]@ =~= a.pile(q as int).drop_last());
                            assert forall|x: int| 0 <= x < 7 && x != q implies self.tableau@[x]
                                == a.tableau@[x] by {}
                        }
                        let mut fv = self.foundations.remove(t);
                        fv.push(dragged);
                        self.foundations.insert(t, fv);
                        proof {
                            assert(self.foundation(t as int) =~= a.foundation(t as int).push(
                                dragged,
                            ));
                            assert forall|x: int| 0 <= x < 4 && x != t implies self.foundations@[x]
                                == a.foundations@[x] by {}
                            self.lemma_to_foundation_ok(a, dragged, s, t, true, q);
                        }
                        MoveOutcome::Accepted
                    },
                    Some(Src::WasteTop) => {
                        self.waste.pop();
                        let mut fv = self.foundations.remove(t);
                        fv.push(dragged);
                        self.foundations.insert(t, fv);
                        proof {
                            assert(self.foundation(t as int) =~= a.foundation(t as int).push(
                                dragged,
                            ));
                            assert forall|x: int| 0 <= x < 4 && x != t implies self.foundations@[x]
                                == a.foundations@[x] by {}
                            self.lemma_to_foundation_ok(a, dragged, s, t, false, 0);
                        }
                        MoveOutcome::Accepted
                    },
                    Some(Src::Foundation(f)) => {
                        proof {
                            assert(a.foundation(f as int)[a.foundation(f as int).len() - 1]
                                == dragged);
                            assert(suit_index_spec(suit_of_index(f as int)) == f as int);
                            assert(false);
                        }
                        MoveOutcome::Rejected
                    },
                    None => {
                        proof {
                            assert(false);
                        }
                        MoveOutcome::Rejected
                    },
                }
            },
            _ => {
                proof {
                    assert(false);
                }
                MoveOutcome::Rejected
            },
        }
    }

    /// Resolves which zone holds the card a drop landed on, so that
    /// the move can be judged against that zone. The search runs in
    /// the dispatcher's priority order: tableau piles first, then
    /// foundations, then the waste, then the stock.
    pub fn zone_of_card(&self, c: Card) -> (z: Option<Zone>)
        requires
            self.wf(),
        ensures
            z == self.drop_zone_of(c),
    {
        let mut p: usize = 0;
        while p < 7
            invariant
                self.wf(),
                p <= 7,
                self.pile_holding_from(c, 0) == self.pile_holding_from(c, p as int),
            decreases 7 - p,
        {
            if self.pile_has(p, c) {
                proof {
                    assert(self.pile_holding_from(c, p as int) == p);
                }
                return Some(Zone::Tableau(p));
            }
            proof {
                assert(self.pile_holding_from(c, p as int) == self.pile_holding_from(
                    c,
                    p as int + 1,
                ));
            }
            p = p + 1;
        }
        proof {
            assert(self.pile_holding_from(c, p as int) == -1);
        }
        let mut f: usize = 0;
        while f < 4
            invariant
                self.wf(),
                f <= 4,
                self.pile_holding_from(c, 0) == -1,
                self.foundation_holding_from(c, 0) == self.foundation_holding_from(c, f as int),
            decreases 4 - f,
        {
            if vec_has(&self.foundations[f], c) {
                proof {
                    assert(self.foundation_holding_from(c, f as int) == f);
                }
                let suit = crate::card::suit_for_index(f);
                return Some(Zone::Foundation(suit));
            }
            proof {
                assert(self.foundation_holding_from(c, f as int) == self.foundation_holding_from(
                    c,
                    f as int + 1,
                ));
            }
            f = f + 1;
        }
        proof {
            assert(self.foundation_holding_from(c, f as int) == -1);
        }
        if vec_has(&self.waste, c) {
            return Some(Zone::Waste);
        }
        if vec_has(&self.stock, c) {
            return Some(Zone::Stock);
        }
        None
    }

    /// Runs over all piles after a drop and flips the newly exposed
    /// top card of any pile whose face-up cards have all left, so
    /// that every non-empty pile shows a face-up, pickable top
    /// again. Nothing else changes.
    pub fn flip_last_card_of_piles(&mut self)
        requires
            old(self).inv(),
        ensures
            final(self).inv(),
            final(self).tops_exposed(),
            final(self).stock@ == old(self).stock@,
            final(self).waste@ == old(self).waste@,
            final(self).foundations@ == old(self).foundations@,
            final(self).tableau@ == old(self).tableau@,
            forall|p: int|
                0 <= p < 7 ==> #[trigger] final(self).fdown(p) == if old(self).pile(p).len() > 0
                    && old(self).fdown(p) == old(self).pile(p).len() {
                    old(self).pile(p).len() - 1
                } else {
                    old(self).fdown(p)
                },
            final(self).zone_cards().to_multiset() == old(self).zone_cards().to_multiset(),
    {
        let ghost a = *self;
        let mut p: usize = 0;
        while p < 7
            invariant
                p <= 7,
                a.inv(),
                self.stock@ == a.stock@,
                self.waste@ == a.waste@,
                self.foundations@ == a.foundations@,
                self.tableau@ == a.tableau@,
                self.face_down@.len() == 7,
                forall|x: int|
                    0 <= x < p ==> #[trigger] self.fdown(x) == if a.pile(x).len() > 0 && a.fdown(
                        x,
                    ) == a.pile(x).len() {
                        a.pile(x).len() - 1
                    } else {
                        a.fdown(x)
                    },
                forall|x: int| p <= x < 7 ==> #[trigger] self.face_down@[x] == a.face_down@[x],
            decreases 7 - p,
        {
            let ghost h = *self;
            let len = self.tableau[p].len();
            if len > 0 && self.face_down[p] == len {
                self.face_down[p] = len - 1;
            }
            proof {
                assert(len == a.pile(p as int).len());
                assert forall|x: int|
                    0 <= x < p + 1 implies #[trigger] self.fdown(x) == if a.pile(x).len() > 0
                        && a.fdown(x) == a.pile(x).len() {
                        a.pile(x).len() - 1
                    } else {
                        a.fdown(x)
                    } by {
                    if x < p {
                        assert(self.face_down@[x] == h.face_down@[x]);
                        assert(h.fdown(x) == if a.pile(x).len() > 0 && a.fdown(x) == a.pile(
                            x,
                        ).len() {
                            a.pile(x).len() - 1
                        } else {
                            a.fdown(x)
                        });
                    } else {
                        assert(h.face_down@[x] == a.face_down@[x]);
                    }
                }
                assert forall|x: int|
                    p + 1 <= x < 7 implies self.face_down@[x] == a.face_down@[x] by {
                    assert(self.face_down@[x] == h.face_down@[x]);
                    assert(h.face_down@[x] == a.face_down@[x]);
                }
            }
            p = p + 1;
        }
        proof {
            assert(self.zone_cards() == a.zone_cards());
            crate::board::lemma_foundations_ok_same(a, *self);
            assert forall|x: int| 0 <= x < 7 implies #[trigger] self.fdown(x) <= self.pile(
                x,
            ).len() by {
                assert(self.pile(x) == a.pile(x));
                assert(a.fdown(x) <= a.pile(x).len());
            }
            assert forall|x: int| 0 <= x < 7 implies seq_cards_ok(#[trigger] self.pile(x)) by {
                assert(self.pile(x) == a.pile(x));
                assert(seq_cards_ok(a.pile(x)));
            }
            assert forall|g: int| 0 <= g < 4 implies seq_cards_ok(#[trigger] self.foundation(
                g,
            )) by {
                assert(self.foundation(g) == a.foundation(g));
                assert(seq_cards_ok(a.foundation(g)));
            }
            assert forall|pp: int, x: int, y: int|
                0 <= pp < 7 && self.fdown(pp) <= x && y == x + 1 && y < self.pile(pp).len()
                    implies {
                    &&& colors_alternate(#[trigger] self.pile(pp)[y], #[trigger] self.pile(pp)[x])
                    &&& self.pile(pp)[x].rank == self.pile(pp)[y].rank + 1
                } by {
                assert(self.pile(pp) == a.pile(pp));
                if !(a.pile(pp).len() > 0 && a.fdown(pp) == a.pile(pp).len()) {
                    assert(self.fdown(pp) == a.fdown(pp));
                    assert(colors_alternate(a.pile(pp)[y], a.pile(pp)[x]));
                }
            }
        }
    }
}

} // verus!
