use minigames::cards::Card;
use minigames::cards::Deck;
use minigames::cards::Hand;
use minigames::cards::Rank;
use minigames::cards::Suit;
use minigames::cards::check_for_blackjack;
use minigames::cards::dealer_hit;

fn card(rank: Rank) -> Card {
    Card { rank, suit: Suit::Spade }
}

#[test]
fn get_value_of_every_rank() {
    let expected = [
        (Rank::Ace, 11),
        (Rank::Two, 2),
        (Rank::Three, 3),
        (Rank::Four, 4),
        (Rank::Five, 5),
        (Rank::Six, 6),
        (Rank::Seven, 7),
        (Rank::Eight, 8),
        (Rank::Nine, 9),
        (Rank::Ten, 10),
        (Rank::Jack, 10),
        (Rank::Queen, 10),
        (Rank::King, 10),
    ];
    for (rank, value) in expected {
        assert_eq!(card(rank).get_value(), value);
    }
}

#[test]
fn names_of_ranks_and_suits() {
    assert_eq!(Rank::Ace.name(), "Ace");
    assert_eq!(Rank::Queen.name(), "Queen");
    assert_eq!(Suit::Spade.name(), "Spades");
    assert_eq!(Suit::Club.name(), "Clubs");
}

#[test]
fn empty_hand_sums_to_zero() {
    let hand = Hand::new_hand();
    assert_eq!(hand.calculate_sum(), 0);
}

#[test]
fn blackjack_is_twenty_one() {
    let mut hand = Hand::new_hand();
    hand.add_card(card(Rank::Ace));
    hand.add_card(card(Rank::King));
    assert_eq!(hand.calculate_sum(), 21);
}

#[test]
fn one_ace_demoted_when_busting() {
    let mut hand = Hand::new_hand();
    hand.add_card(card(Rank::Ace));
    hand.add_card(card(Rank::Ace));
    hand.add_card(card(Rank::Nine));
    // 11 + 11 + 9 = 31; one ace drops to 1.
    assert_eq!(hand.calculate_sum(), 21);
}

#[test]
fn all_aces_demoted_when_needed() {
    let mut hand = Hand::new_hand();
    hand.add_card(card(Rank::Ace));
    hand.add_card(card(Rank::Ace));
    hand.add_card(card(Rank::Ace));
    // 33 -> 23 -> 13.
    assert_eq!(hand.calculate_sum(), 13);
}

#[test]
fn two_aces_stop_at_twelve() {
    let mut hand = Hand::new_hand();
    hand.add_card(card(Rank::Ace));
    hand.add_card(card(Rank::Ace));
    // 22 -> 12, and the second ace keeps its 11.
    assert_eq!(hand.calculate_sum(), 12);
}

#[test]
fn bust_without_aces_stays_busted() {
    let mut hand = Hand::new_hand();
    hand.add_card(card(Rank::King));
    hand.add_card(card(Rank::Queen));
    hand.add_card(card(Rank::Five));
    assert_eq!(hand.calculate_sum(), 25);
}

#[test]
fn set_deck_holds_every_card_once() {
    let mut deck = Deck::set_deck();
    assert_eq!(deck.len(), 52);
    let mut rank_counts = [0usize; 13];
    let mut suit_counts = [0usize; 4];
    let mut seen: Vec<(usize, usize)> = Vec::new();
    for _ in 0..52 {
        let card = deck.deal_card();
        let r = match card.rank {
            Rank::Ace => 0,
            Rank::Two => 1,
            Rank::Three => 2,
            Rank::Four => 3,
            Rank::Five => 4,
            Rank::Six => 5,
            Rank::Seven => 6,
            Rank::Eight => 7,
            Rank::Nine => 8,
            Rank::Ten => 9,
            Rank::Jack => 10,
            Rank::Queen => 11,
            Rank::King => 12,
        };
        let s = match card.suit {
            Suit::Spade => 0,
            Suit::Heart => 1,
            Suit::Diamond => 2,
            Suit::Club => 3,
        };
        assert!(!seen.contains(&(r, s)), "duplicate card in a fresh deck");
        seen.push((r, s));
        rank_counts[r] += 1;
        suit_counts[s] += 1;
    }
    assert_eq!(deck.len(), 0);
    assert!(rank_counts.iter().all(|&c| c == 4));
    assert!(suit_counts.iter().all(|&c| c == 13));
}

#[test]
fn shuffle_keeps_all_cards() {
    let mut deck = Deck::set_deck();
    deck.shuffle();
    deck.shuffle();
    assert_eq!(deck.len(), 52);
    let mut values = 0i32;
    for _ in 0..52 {
        values += deck.deal_card().get_value();
    }
    // 4 suits of 11 + 2..=9 + 4 tens = 4 * 95.
    assert_eq!(values, 380);
}

#[test]
fn dealer_hit_appends_and_rescores() {
    let mut deck = Deck::set_deck();
    let mut dealer = Hand::new_hand();
    let mut score = 0i32;
    dealer_hit(&mut score, &mut dealer, &mut deck);
    assert_eq!(deck.len(), 51);
    assert!((2..=11).contains(&score));
    assert_eq!(score, dealer.calculate_sum());
    dealer_hit(&mut score, &mut dealer, &mut deck);
    assert_eq!(deck.len(), 50);
    assert_eq!(score, dealer.calculate_sum());
}

#[test]
fn blackjack_check_knocks_out_twenty_ones() {
    let sums = vec![21, 18, 21, 4];
    let mut still_playing = vec![true, true, false, true];
    check_for_blackjack(&sums, &mut still_playing);
    assert_eq!(still_playing, vec![false, true, false, true]);
}
