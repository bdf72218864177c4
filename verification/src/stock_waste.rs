use vstd::prelude::*;

use crate::board::{seq_cards_ok, Board};
use crate::card::{card_ok, Card};

verus! {

/// One draw: the stock's top card moves face-up onto the waste.
pub open spec fn draw_step(stock: Seq<Card>, waste: Seq<Card>) -> (Seq<Card>, Seq<Card>) {
    (stock.drop_last(), waste.push(stock.last()))
}

/// `k` draws in a row.
pub open spec fn draw_steps(stock: Seq<Card>, waste: Seq<Card>, k: nat) -> (Seq<Card>, Seq<Card>)
    decreases k,
{
    if k == 0 {
        (stock, waste)
    } else {
        let (s, w) = draw_steps(stock, waste, (k - 1) as nat);
        draw_step(s, w)
    }
}

/// After `k` draws the stock has lost its last `k` cards and the
/// waste has gained them in reverse order.
pub proof fn lemma_draw_steps(stock: Seq<Card>, waste: Seq<Card>, k: nat)
    requires
        k <= stock.len(),
    ensures
        draw_steps(stock, waste, k).0 == stock.take(stock.len() - k),
        draw_steps(stock, waste, k).1 == waste + stock.skip(stock.len() - k).reverse(),
    decreases k,
{
    let n = stock.len() as int;
    if k == 0 {
        assert(stock.take(n) =~= stock);
        assert(waste + stock.skip(n).reverse() =~= waste);
    } else {
        lemma_draw_steps(stock, waste, (k - 1) as nat);
        let ki = k as int;
        let s1 = stock.take(n - (ki - 1));
        let w1 = waste + stock.skip(n - (ki - 1)).reverse();
        assert(s1.len() == n - ki + 1);
        assert(s1.drop_last() =~= stock.take(n - ki));
        assert(s1.last() == stock[n - ki]);
        assert(w1.push(stock[n - ki]) =~= waste + stock.skip(n - ki).reverse());
    }
}

/// Drawing the whole stock into the waste and then recycling the
/// waste restores the stock to its original order, with the waste
/// left empty.
pub proof fn lemma_stock_waste_round_trip(stock: Seq<Card>)
    ensures
        draw_steps(stock, Seq::empty(), stock.len()).0.len() == 0,
        draw_steps(stock, Seq::empty(), stock.len()).1.reverse() == stock,
{
    lemma_draw_steps(stock, Seq::empty(), stock.len());
    let n = stock.len() as int;
    assert(stock.take(n - stock.len()).len() == 0);
    assert(draw_steps(stock, Seq::empty(), stock.len()).1 =~= stock.skip(0).reverse());
    assert(stock.skip(0) =~= stock);
    assert(stock.reverse().reverse() =~= stock);
}

impl Board {
    /// A click on the stock. With a non-empty stock it draws: the
    /// stock's top card moves face-up onto the waste. With the stock
    /// exhausted and a non-empty waste it recycles instead: every
    /// waste card returns to the stock in reverse order, so that the
    /// draw order will repeat, all face-down again. With both zones
    /// empty the click does nothing.
    pub fn click_stock(&mut self)
        requires
            old(self).inv(),
        ensures
            final(self).inv(),
            old(self).stock@.len() > 0 ==> (final(self).stock@, final(self).waste@) == draw_step(
                old(self).stock@,
                old(self).waste@,
            ),
            old(self).stock@.len() == 0 && old(self).waste@.len() > 0 ==> {
                &&& final(self).stock@ == old(self).waste@.reverse()
                &&& final(self).waste@.len() == 0
            },
            old(self).stock@.len() == 0 && old(self).waste@.len() == 0 ==> *final(self) == *old(
                self,
            ),
            final(self).tableau@ == old(self).tableau@,
            final(self).foundations@ == old(self).foundations@,
            final(self).face_down@ == old(self).face_down@,
            final(self).zone_cards().to_multiset() == old(self).zone_cards().to_multiset(),
    {
        broadcast use vstd::multiset::group_multiset_axioms;
        broadcast use vstd::seq_lib::group_to_multiset_ensures;

        let ghost a = *self;
        if self.stock.len() > 0 {
            if let Some(c) = self.stock.pop() {
                self.waste.push(c);
            }
            proof {
                assert(self.stock@ =~= a.stock@.drop_last());
                assert(self.waste@ == a.waste@.push(a.stock@.last()));
                assert(a.stock@.drop_last().push(a.stock@.last()) =~= a.stock@);
                assert(a.stock@.drop_last().push(a.stock@.last()).to_multiset()
                    =~= a.stock@.drop_last().to_multiset().insert(a.stock@.last()));
                assert(a.waste@.push(a.stock@.last()).to_multiset() =~= a.waste@.to_multiset().insert(
                    a.stock@.last(),
                ));
                crate::board::lemma_zone_cards_multiset(a);
                crate::board::lemma_zone_cards_multiset(*self);
                assert(crate::board::board_multiset(*self) =~= crate::board::board_multiset(a));
                assert(self.zone_cards().to_multiset().len() == a.zone_cards().to_multiset().len());
                assert(self.zone_cards().len() == self.zone_cards().to_multiset().len());
                assert(a.zone_cards().len() == a.zone_cards().to_multiset().len());
                crate::board::lemma_runs_ok_same_tableau(a, *self);
                crate::board::lemma_foundations_ok_same(a, *self);
                assert forall|x: int| 0 <= x < 7 implies #[trigger] self.fdown(x) <= self.pile(
                    x,
                ).len() by {
                    assert(self.pile(x) == a.pile(x));
                    assert(a.fdown(x) <= a.pile(x).len());
                }
                assert forall|x: int| 0 <= x < 7 implies seq_cards_ok(#[trigger] self.pile(x)) by {
                    assert(self.pile(x) == a.pile(x));
                    assert(seq_cards_ok(a.pile(x)));
                }
                assert forall|g: int| 0 <= g < 4 implies seq_cards_ok(
                    #[trigger] self.foundation(g),
                ) by {
                    assert(self.foundation(g) == a.foundation(g));
                    assert(seq_cards_ok(a.foundation(g)));
                }
                assert forall|k: int| 0 <= k < self.stock@.len() implies card_ok(
                    #[trigger] self.stock@[k],
                ) by {
                    assert(self.stock@[k] == a.stock@[k]);
                }
                assert forall|k: int| 0 <= k < self.waste@.len() implies card_ok(
                    #[trigger] self.waste@[k],
                ) by {
                    if k < a.waste@.len() {
                        assert(self.waste@[k] == a.waste@[k]);
                    } else {
                        assert(self.waste@[k] == a.stock@[a.stock@.len() - 1]);
                    }
                }
            }
        } else if self.waste.len() > 0 {
            proof {
                assert(a.waste@.take(a.waste@.len() as int) =~= a.waste@);
                assert(a.stock@ =~= a.waste@.skip(a.waste@.len() as int).reverse());
            }
            while self.waste.len() > 0
                invariant
                    a.inv(),
                    a.stock@.len() == 0,
                    self.tableau@ == a.tableau@,
                    self.foundations@ == a.foundations@,
                    self.face_down@ == a.face_down@,
                    self.waste@.len() <= a.waste@.len(),
                    self.waste@ == a.waste@.take(self.waste@.len() as int),
                    self.stock@ == a.waste@.skip(self.waste@.len() as int).reverse(),
                decreases self.waste@.len(),
            {
                let ghost w = self.waste@;
                let ghost st = self.stock@;
                if let Some(c) = self.waste.pop() {
                    self.stock.push(c);
                }
                proof {
                    let kl = w.len() as int;
                    assert(self.waste@ =~= a.waste@.take(kl - 1));
                    assert(w[kl - 1] == a.waste@[kl - 1]);
                    assert(self.stock@ =~= a.waste@.skip(kl - 1).reverse());
                }
            }
            proof {
                assert(self.stock@ =~= a.waste@.reverse());
                a.waste@.lemma_reverse_to_multiset();
                crate::board::lemma_zone_cards_multiset(a);
                crate::board::lemma_zone_cards_multiset(*self);
                assert(crate::board::board_multiset(*self) =~= crate::board::board_multiset(a));
                assert(self.zone_cards().to_multiset().len() == a.zone_cards().to_multiset().len());
                assert(self.zone_cards().len() == self.zone_cards().to_multiset().len());
                assert(a.zone_cards().len() == a.zone_cards().to_multiset().len());
                crate::board::lemma_runs_ok_same_tableau(a, *self);
                crate::board::lemma_foundations_ok_same(a, *self);
                assert forall|x: int| 0 <= x < 7 implies #[trigger] self.fdown(x) <= self.pile(
                    x,
                ).len() by {
                    assert(self.pile(x) == a.pile(x));
                    assert(a.fdown(x) <= a.pile(x).len());
                }
                assert forall|x: int| 0 <= x < 7 implies seq_cards_ok(#[trigger] self.pile(x)) by {
                    assert(self.pile(x) == a.pile(x));
                    assert(seq_cards_ok(a.pile(x)));
                }
                assert forall|g: int| 0 <= g < 4 implies seq_cards_ok(
                    #[trigger] self.foundation(g),
                ) by {
                    assert(self.foundation(g) == a.foundation(g));
                    assert(seq_cards_ok(a.foundation(g)));
                }
                assert forall|k: int| 0 <= k < self.stock@.len() implies card_ok(
                    #[trigger] self.stock@[k],
                ) by {
                    assert(self.stock@[k] == a.waste@[a.waste@.len() - 1 - k]);
                }
                assert(seq_cards_ok(self.waste@));
            }
        }
    }
}

} // verus!
