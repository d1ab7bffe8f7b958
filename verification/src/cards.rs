//! Blackjack cards, hands and decks.
//!
//! A hand's total is the sum of its card values, where an ace first counts
//! 11; if the total is over 21, aces are demoted to 1 one at a time, in hand
//! order, until the total is at most 21 or no ace is left.

use vstd::prelude::*;
use crate::rng::random_below;

verus! {

broadcast use vstd::seq_lib::group_to_multiset_ensures;

#[derive(Clone, Copy, Debug, PartialEq, Eq, Structural)]
pub enum Suit {
    Spade,
    Heart,
    Diamond,
    Club,
}

#[derive(Clone, Copy, Debug, PartialEq, Eq, Structural)]
pub enum Rank {
    Ace,
    Two,
    Three,
    Four,
    Five,
    Six,
    Seven,
    Eight,
    Nine,
    Ten,
    Jack,
    Queen,
    King,
}

pub open spec fn suit_name_spec(s: Suit) -> Seq<char> {
    match s {
        Suit::Spade => "Spades"@,
        Suit::Heart => "Hearts"@,
        Suit::Diamond => "Diamonds"@,
        Suit::Club => "Clubs"@,
    }
}

pub open spec fn rank_name_spec(r: Rank) -> Seq<char> {
    match r {
        Rank::Ace => "Ace"@,
        Rank::Two => "Two"@,
        Rank::Three => "Three"@,
        Rank::Four => "Four"@,
        Rank::Five => "Five"@,
        Rank::Six => "Six"@,
        Rank::Seven => "Seven"@,
        Rank::Eight => "Eight"@,
        Rank::Nine => "Nine"@,
        Rank::Ten => "Ten"@,
        Rank::Jack => "Jack"@,
        Rank::Queen => "Queen"@,
        Rank::King => "King"@,
    }
}

impl Suit {
    /// The suit's display name, as the table announces it.
    pub fn name(&self) -> (r: &'static str)
        ensures
            r@ == suit_name_spec(*self),
    {
        match self {
            Suit::Spade => "Spades",
            Suit::Heart => "Hearts",
            Suit::Diamond => "Diamonds",
            Suit::Club => "Clubs",
        }
    }
}

impl Rank {
    /// The rank's display name.
    pub fn name(&self) -> (r: &'static str)
        ensures
            r@ == rank_name_spec(*self),
    {
        match self {
            Rank::Ace => "Ace",
            Rank::Two => "Two",
            Rank::Three => "Three",
            Rank::Four => "Four",
            Rank::Five => "Five",
            Rank::Six => "Six",
            Rank::Seven => "Seven",
            Rank::Eight => "Eight",
            Rank::Nine => "Nine",
            Rank::Ten => "Ten",
            Rank::Jack => "Jack",
            Rank::Queen => "Queen",
            Rank::King => "King",
        }
    }
}

#[derive(Clone, Copy, Debug, PartialEq, Eq, Structural)]
pub struct Card {
    pub rank: Rank,
    pub suit: Suit,
}

/// Point value of a card: aces count 11 until demoted, face cards 10.
pub open spec fn card_value_spec(c: Card) -> int {
    match c.rank {
        Rank::Ace => 11,
        Rank::Two => 2,
        Rank::Three => 3,
        Rank::Four => 4,
        Rank::Five => 5,
        Rank::Six => 6,
        Rank::Seven => 7,
        Rank::Eight => 8,
        Rank::Nine => 9,
        Rank::Ten => 10,
        Rank::Jack => 10,
        Rank::Queen => 10,
        Rank::King => 10,
    }
}

impl Card {
    pub fn get_value(&self) -> (v: i32)
        ensures
            v == card_value_spec(*self),
    {
        match self.rank {
            Rank::Ace => 11,
            Rank::Two => 2,
            Rank::Three => 3,
            Rank::Four => 4,
            Rank::Five => 5,
            Rank::Six => 6,
            Rank::Seven => 7,
            Rank::Eight => 8,
            Rank::Nine => 9,
            Rank::Ten => 10,
            Rank::Jack => 10,
            Rank::Queen => 10,
            Rank::King => 10,
        }
    }
}

/// Sum of the raw card values (every ace still counting 11).
pub open spec fn base_sum(s: Seq<Card>) -> int
    decreases s.len(),
{
    if s.len() == 0 {
        0
    } else {
        base_sum(s.drop_last()) + card_value_spec(s.last())
    }
}

/// Walks the hand from index `i`, demoting one ace (11 down to 1) per step
/// while the running total is above 21.
pub open spec fn demote_aces_from(s: Seq<Card>, i: int, total: int) -> int
    decreases s.len() - i,
{
    if total <= 21 || i < 0 || i >= s.len() {
        total
    } else if s[i].rank == Rank::Ace {
        demote_aces_from(s, i + 1, total - 10)
    } else {
        demote_aces_from(s, i + 1, total)
    }
}

/// The blackjack total of a hand.
pub open spec fn hand_sum(s: Seq<Card>) -> int {
    demote_aces_from(s, 0, base_sum(s))
}

#[derive(Clone)]
pub struct Hand {
    cards: Vec<Card>,
}

impl View for Hand {
    type V = Seq<Card>;

    closed spec fn view(&self) -> Seq<Card> {
        self.cards@
    }
}

proof fn lemma_demote_no_ace(s: Seq<Card>, i: int, total: int)
    requires
        forall|k: int| i <= k < s.len() ==> s[k].rank != Rank::Ace,
    ensures
        demote_aces_from(s, i, total) == total,
    decreases s.len() - i,
{
    if !(total <= 21 || i < 0 || i >= s.len()) {
        lemma_demote_no_ace(s, i + 1, total);
    }
}

proof fn lemma_base_sum_bounds(s: Seq<Card>)
    ensures
        2 * s.len() <= base_sum(s) <= 11 * s.len(),
    decreases s.len(),
{
    if s.len() > 0 {
        lemma_base_sum_bounds(s.drop_last());
    }
}

impl Hand {
    pub fn len(&self) -> (n: usize)
        ensures
            n == self@.len(),
    {
        self.cards.len()
    }

    pub fn card_at(&self, i: usize) -> (c: Card)
        requires
            i < self@.len(),
        ensures
            c == self@[i as int],
    {
        self.cards[i]
    }

    pub fn new_hand() -> (h: Hand)
        ensures
            h@ == Seq::<Card>::empty(),
    {
        Hand { cards: Vec::new() }
    }

    pub fn add_card(&mut self, card: Card)
        ensures
            final(self)@ == old(self)@.push(card),
    {
        self.cards.push(card);
    }

    /// The hand's blackjack total: raw sum first, then aces demoted from 11
    /// to 1, in hand order, while the total exceeds 21.
    pub fn calculate_sum(&self) -> (total: i32)
        requires
            11 * self@.len() <= i32::MAX,
        ensures
            total == hand_sum(self@),
    {
        let ghost s = self.cards@;
        let mut total: i32 = 0;
        let mut has_ace = false;
        let mut idx: usize = 0;
        while idx < self.cards.len()
            invariant
                idx <= s.len(),
                self.cards@ == s,
                11 * s.len() <= i32::MAX,
                total == base_sum(s.take(idx as int)),
                0 <= total <= 11 * idx,
                has_ace == exists|k: int| 0 <= k < idx && s[k].rank == Rank::Ace,
            decreases s.len() - idx,
        {
            let card = self.cards[idx];
            proof {
                assert(s.take(idx + 1).drop_last() =~= s.take(idx as int));
                assert(s.take(idx + 1).last() == s[idx as int]);
                lemma_base_sum_bounds(s.take(idx as int));
            }
            total = total + card.get_value();
            if let Rank::Ace = card.rank {
                has_ace = true;
            }
            idx = idx + 1;
        }
        assert(s.take(s.len() as int) =~= s);
        if total > 21 && has_ace {
            let mut i: usize = 0;
            while i < self.cards.len() && total > 21
                invariant
                    0 <= i <= s.len(),
                    self.cards@ == s,
                    demote_aces_from(s, i as int, total as int) == hand_sum(s),
                    total <= 11 * s.len() <= i32::MAX,
                decreases s.len() - i,
            {
                if let Rank::Ace = self.cards[i].rank {
                    total = total - 10;
                }
                i = i + 1;
            }
            total
        } else {
            proof {
                if total > 21 {
                    lemma_demote_no_ace(s, 0, total as int);
                }
            }
            total
        }
    }
}

/// Index 0..13 to a rank, in the order the deck is laid out.
pub open spec fn rank_of_index(i: int) -> Rank {
    if i == 0 {
        Rank::Ace
    } else if i == 1 {
        Rank::Two
    } else if i == 2 {
        Rank::Three
    } else if i == 3 {
        Rank::Four
    } else if i == 4 {
        Rank::Five
    } else if i == 5 {
        Rank::Six
    } else if i == 6 {
        Rank::Seven
    } else if i == 7 {
        Rank::Eight
    } else if i == 8 {
        Rank::Nine
    } else if i == 9 {
        Rank::Ten
    } else if i == 10 {
        Rank::Jack
    } else if i == 11 {
        Rank::Queen
    } else {
        Rank::King
    }
}

/// Index 0..4 to a suit.
pub open spec fn suit_of_index(i: int) -> Suit {
    if i == 0 {
        Suit::Spade
    } else if i == 1 {
        Suit::Heart
    } else if i == 2 {
        Suit::Diamond
    } else {
        Suit::Club
    }
}

/// The 52 cards of a fresh deck, rank-major.
pub open spec fn full_deck() -> Seq<Card> {
    Seq::new(52, |i: int| Card { rank: rank_of_index(i / 4), suit: suit_of_index(i % 4) })
}

fn all_ranks() -> (v: Vec<Rank>)
    ensures
        v@.len() == 13,
        forall|i: int| 0 <= i < 13 ==> v@[i] == rank_of_index(i),
{
    let mut v: Vec<Rank> = Vec::new();
    v.push(Rank::Ace);
    v.push(Rank::Two);
    v.push(Rank::Three);
    v.push(Rank::Four);
    v.push(Rank::Five);
    v.push(Rank::Six);
    v.push(Rank::Seven);
    v.push(Rank::Eight);
    v.push(Rank::Nine);
    v.push(Rank::Ten);
    v.push(Rank::Jack);
    v.push(Rank::Queen);
    v.push(Rank::King);
    v
}

fn all_suits() -> (v: Vec<Suit>)
    ensures
        v@.len() == 4,
        forall|i: int| 0 <= i < 4 ==> v@[i] == suit_of_index(i),
{
    let mut v: Vec<Suit> = Vec::new();
    v.push(Suit::Spade);
    v.push(Suit::Heart);
    v.push(Suit::Diamond);
    v.push(Suit::Club);
    v
}

#[derive(Clone)]
pub struct Deck {
    cards: Vec<Card>,
}

impl View for Deck {
    type V = Seq<Card>;

    closed spec fn view(&self) -> Seq<Card> {
        self.cards@
    }
}

impl Deck {
    /// Reorders the deck; no card is gained or lost.
    pub fn shuffle(&mut self)
        ensures
            final(self)@.to_multiset() == old(self)@.to_multiset(),
            final(self)@.len() == old(self)@.len(),
    {
        let ghost orig = self.cards@;
        let mut new_deck: Vec<Card> = Vec::new();
        while self.cards.len() > 0
            invariant
                new_deck@.to_multiset().add(self.cards@.to_multiset()) == orig.to_multiset(),
                new_deck@.len() + self.cards@.len() == orig.len(),
            decreases self.cards@.len(),
        {
            let ghost before = self.cards@;
            let index = random_below(self.cards.len());
            let card = self.cards.remove(index);
            new_deck.push(card);
            proof {
                assert(new_deck@.to_multiset().add(self.cards@.to_multiset())
                    =~= orig.to_multiset());
            }
        }
        self.cards = new_deck;
        proof {
            assert(self.cards@.to_multiset().add(Seq::<Card>::empty().to_multiset())
                =~= self.cards@.to_multiset());
        }
    }

    /// A full 52-card deck, one card per rank and suit, shuffled.
    pub fn set_deck() -> (deck: Deck)
        ensures
            deck@.to_multiset() == full_deck().to_multiset(),
            deck@.len() == 52,
    {
        let ranks = all_ranks();
        let suits = all_suits();
        let mut cards: Vec<Card> = Vec::new();
        let mut r: usize = 0;
        while r < 13
            invariant
                r <= 13,
                ranks@.len() == 13,
                suits@.len() == 4,
                forall|i: int| 0 <= i < 13 ==> ranks@[i] == rank_of_index(i),
                forall|i: int| 0 <= i < 4 ==> suits@[i] == suit_of_index(i),
                cards@.len() == 4 * r,
                forall|k: int| 0 <= k < cards@.len() ==> cards@[k] == full_deck()[k],
            decreases 13 - r,
        {
            let mut s: usize = 0;
            while s < 4
                invariant
                    r < 13,
                    s <= 4,
                    ranks@.len() == 13,
                    suits@.len() == 4,
                    forall|i: int| 0 <= i < 13 ==> ranks@[i] == rank_of_index(i),
                    forall|i: int| 0 <= i < 4 ==> suits@[i] == suit_of_index(i),
                    cards@.len() == 4 * r + s,
                    forall|k: int| 0 <= k < cards@.len() ==> cards@[k] == full_deck()[k],
                decreases 4 - s,
            {
                let card = Card { rank: ranks[r], suit: suits[s] };
                proof {
                    assert((4 * r + s) / 4 == r as int && (4 * r + s) % 4 == s as int) by (nonlinear_arith)
                        requires r < 13 && s < 4;
                }
                cards.push(card);
                s = s + 1;
            }
            r = r + 1;
        }
        assert(cards@ =~= full_deck());
        let mut deck = Deck { cards };
        deck.shuffle();
        deck
    }

    /// Deals the card on top of the deck (the last one).
    pub fn deal_card(&mut self) -> (card: Card)
        requires
            old(self)@.len() > 0,
        ensures
            card == old(self)@.last(),
            final(self)@ == old(self)@.drop_last(),
    {
        self.cards.pop().unwrap()
    }

    pub fn len(&self) -> (n: usize)
        ensures
            n == self@.len(),
    {
        self.cards.len()
    }
}

/// Deals the dealer one card and recomputes their score.
pub fn dealer_hit(dealer_score: &mut i32, dealer_hand: &mut Hand, card_deck: &mut Deck)
    requires
        old(card_deck)@.len() > 0,
        11 * (old(dealer_hand)@.len() + 1) <= i32::MAX,
    ensures
        final(dealer_hand)@ == old(dealer_hand)@.push(old(card_deck)@.last()),
        final(card_deck)@ == old(card_deck)@.drop_last(),
        *final(dealer_score) == hand_sum(final(dealer_hand)@),
{
    dealer_hand.add_card(card_deck.deal_card());
    *dealer_score = dealer_hand.calculate_sum();
}

/// Knocks every player whose total is already 21 out of the round.
pub fn check_for_blackjack(sums: &Vec<i32>, still_playing: &mut Vec<bool>)
    requires
        old(still_playing)@.len() == sums@.len(),
    ensures
        final(still_playing)@.len() == sums@.len(),
        forall|i: int|
            0 <= i < sums@.len() ==> final(still_playing)@[i] == (sums@[i] != 21
                && old(still_playing)@[i]),
{
    let ghost orig = still_playing@;
    let mut i: usize = 0;
    while i < sums.len()
        invariant
            i <= sums@.len(),
            orig.len() == sums@.len(),
            still_playing@.len() == sums@.len(),
            forall|k: int|
                #![trigger still_playing@[k]]
                0 <= k < i ==> still_playing@[k] == (sums@[k] != 21 && orig[k]),
            forall|k: int|
                #![trigger still_playing@[k]]
                i <= k < sums@.len() ==> still_playing@[k] == orig[k],
        decreases sums@.len() - i,
    {
        if sums[i] == 21 {
            still_playing.set(i, false);
        }
        proof {
            assert(forall|k: int|
                #![trigger still_playing@[k]]
                0 <= k <= i ==> still_playing@[k] == (sums@[k] != 21 && orig[k]));
        }
        i = i + 1;
    }
}

} // verus!
