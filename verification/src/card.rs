use vstd::prelude::*;

verus! {

/// One of the four French suits. Hearts and Diamonds form the red
/// color class, Clubs and Spades the black one.
#[derive(Copy, Clone, PartialEq, Eq, Structural, Debug)]
pub enum Suit {
    Hearts,
    Diamonds,
    Clubs,
    Spades,
}

/// A playing card: a suit together with a rank in 1..=13
/// (1 = Ace, 11 = Jack, 12 = Queen, 13 = King).
#[derive(Copy, Clone, PartialEq, Eq, Structural, Debug)]
pub struct Card {
    pub suit: Suit,
    pub rank: u8,
}

pub open spec fn suit_index_spec(s: Suit) -> int {
    match s {
        Suit::Hearts => 0,
        Suit::Diamonds => 1,
        Suit::Clubs => 2,
        Suit::Spades => 3,
    }
}

pub open spec fn suit_of_index(i: int) -> Suit {
    if i == 0 {
        Suit::Hearts
    } else if i == 1 {
        Suit::Diamonds
    } else if i == 2 {
        Suit::Clubs
    } else {
        Suit::Spades
    }
}

pub open spec fn is_red(s: Suit) -> bool {
    s == Suit::Hearts || s == Suit::Diamonds
}

/// Two cards may rest on one another in the tableau only if their
/// color classes differ.
pub open spec fn colors_alternate(a: Card, b: Card) -> bool {
    is_red(a.suit) != is_red(b.suit)
}

pub open spec fn rank_ok(r: u8) -> bool {
    1 <= r <= 13
}

pub open spec fn card_ok(c: Card) -> bool {
    rank_ok(c.rank)
}

/// The card that position `i` of the freshly built, unshuffled deck
/// holds: thirteen consecutive ranks per suit.
pub open spec fn card_of_index(i: int) -> Card {
    Card { suit: suit_of_index(i / 13), rank: (i % 13 + 1) as u8 }
}

/// The deck position that holds card `c` in the unshuffled deck.
pub open spec fn deck_index_of(c: Card) -> int {
    suit_index_spec(c.suit) * 13 + c.rank - 1
}

pub fn suit_index(s: Suit) -> (i: usize)
    ensures
        i == suit_index_spec(s),
{
    match s {
        Suit::Hearts => 0,
        Suit::Diamonds => 1,
        Suit::Clubs => 2,
        Suit::Spades => 3,
    }
}

pub fn suit_for_index(i: usize) -> (s: Suit)
    requires
        i < 4,
    ensures
        s == suit_of_index(i as int),
{
    if i == 0 {
        Suit::Hearts
    } else if i == 1 {
        Suit::Diamonds
    } else if i == 2 {
        Suit::Clubs
    } else {
        Suit::Spades
    }
}

pub fn card_is_red(c: &Card) -> (r: bool)
    ensures
        r == is_red(c.suit),
{
    match c.suit {
        Suit::Hearts | Suit::Diamonds => true,
        Suit::Clubs | Suit::Spades => false,
    }
}

/// Builds the ordered 52-card deck, one card for every (suit, rank)
/// pair.
pub fn full_deck() -> (deck: Vec<Card>)
    ensures
        deck@.len() == 52,
        forall|k: int| 0 <= k < 52 ==> deck@[k] == card_of_index(k),
{
    let mut deck: Vec<Card> = Vec::new();
    let mut k: usize = 0;
    while k < 52
        invariant
            k <= 52,
            deck@.len() == k,
            forall|j: int| 0 <= j < k ==> deck@[j] == card_of_index(j),
        decreases 52 - k,
    {
        let suit = suit_for_index(k / 13);
        let rank = (k % 13 + 1) as u8;
        deck.push(Card { suit, rank });
        k = k + 1;
    }
    deck
}

/// Distinct deck positions hold distinct cards.
pub proof fn lemma_card_of_index_injective(i: int, j: int)
    requires
        0 <= i < 52,
        0 <= j < 52,
        card_of_index(i) == card_of_index(j),
    ensures
        i == j,
{
    vstd::arithmetic::div_mod::lemma_fundamental_div_mod(i, 13);
    vstd::arithmetic::div_mod::lemma_fundamental_div_mod(j, 13);
}

/// Every well-formed card sits at its deck position.
pub proof fn lemma_deck_index_of_card(c: Card)
    requires
        card_ok(c),
    ensures
        0 <= deck_index_of(c) < 52,
        card_of_index(deck_index_of(c)) == c,
{
    let q = suit_index_spec(c.suit);
    let r = c.rank - 1;
    vstd::arithmetic::div_mod::lemma_fundamental_div_mod_converse(q * 13 + r, 13, q, r);
}

/// A sequence laid out like the fresh deck holds no card twice.
pub proof fn lemma_deck_no_duplicates(deck: Seq<Card>)
    requires
        deck.len() == 52,
        forall|k: int| 0 <= k < 52 ==> deck[k] == card_of_index(k),
    ensures
        deck.no_duplicates(),
{
    assert forall|i: int, j: int| 0 <= i < 52 && 0 <= j < 52 && i != j implies deck[i] != deck[j] by {
        if deck[i] == deck[j] {
            lemma_card_of_index_injective(i, j);
        }
    }
}

} // verus!
