use aoc23::camel::{Card, CamelError, Hand, HandAndBid};

#[test]
fn test_card_parse() {
    assert_eq!(Card::try_from('A').unwrap(), Card::Ace);
    assert_eq!(Card::try_from('J').unwrap(), Card::Joker);
    assert_eq!(Card::try_from('K').unwrap(), Card::King);
    assert_eq!(Card::try_from('T').unwrap(), Card::Ten);
    assert_eq!(Card::try_from('5').unwrap(), Card::Five);
    assert_eq!(Card::try_from('2').unwrap(), Card::Two);
}

#[test]
fn test_card_order() {
    assert!(Card::Ace > Card::King);
    assert!(Card::Ace == Card::Ace);
    assert!(Card::Ten < Card::King);
    assert!(Card::Joker < Card::Ten);
    assert!(Card::Queen > Card::Joker);
}

#[test]
fn test_hand_rank() {
    assert!(Hand::FiveOfAKind.rank() > Hand::FourOfAKind.rank());
    assert!(Hand::FourOfAKind.rank() > Hand::FullHouse.rank());
    assert!(Hand::FullHouse.rank() > Hand::ThreeOfAKind.rank());
    assert!(Hand::ThreeOfAKind.rank() > Hand::TwoPair.rank());
    assert!(Hand::TwoPair.rank() > Hand::OnePair.rank());
    assert!(Hand::OnePair.rank() > Hand::HighCard.rank());
    assert!(Hand::HighCard == Hand::HighCard);
}

#[test]
fn test_hand_order() {
    assert!(Hand::FiveOfAKind > Hand::FourOfAKind);
    assert!(Hand::FourOfAKind > Hand::FullHouse);
    assert!(Hand::FullHouse > Hand::ThreeOfAKind);
    assert!(Hand::ThreeOfAKind > Hand::TwoPair);
    assert!(Hand::TwoPair > Hand::OnePair);
    assert!(Hand::OnePair > Hand::HighCard);
}

#[test]
fn jokers_join_the_largest_group() {
    assert_eq!(Hand::try_from(vec![Card::Ace, Card::Ace, Card::Ace, Card::Ace, Card::Ace]), Ok(Hand::FiveOfAKind));
    assert_eq!(Hand::try_from(vec![Card::Ace, Card::Ace, Card::King, Card::Ace, Card::Ace]), Ok(Hand::FourOfAKind));
    assert_eq!(Hand::try_from(vec![Card::King, Card::Ace, Card::Ace, Card::Ace, Card::King]), Ok(Hand::FullHouse));
    assert_eq!(Hand::try_from(vec![Card::Queen, Card::Ace, Card::Ace, Card::King, Card::Joker]), Ok(Hand::ThreeOfAKind));
    assert_eq!(Hand::try_from(vec![Card::Queen, Card::Ace, Card::King, Card::Joker, Card::Ten]), Ok(Hand::OnePair));
    assert_eq!(Hand::try_from(vec![Card::Queen, Card::Ace, Card::King, Card::Two, Card::Ten]), Ok(Hand::HighCard));
    assert_eq!(Hand::try_from(vec![Card::Joker; 5]), Ok(Hand::FiveOfAKind));
    assert_eq!(Hand::try_from(vec![Card::Ace; 4]), Err(CamelError::WrongCardCount));
}

#[test]
fn hand_and_bid_lines() {
    let h = HandAndBid::parse("32T3K 765").unwrap();
    assert_eq!(h, HandAndBid { cards: "32T3K".to_string(), hand: Hand::OnePair, bid: 765 });
    let h = HandAndBid::parse("T55J5 684").unwrap();
    assert_eq!(h.hand, Hand::FourOfAKind);
    assert_eq!(HandAndBid::parse(""), Err(CamelError::NoHand));
    assert_eq!(HandAndBid::parse("32X3K 1"), Err(CamelError::InvalidCard));
    assert_eq!(HandAndBid::parse("32T3 1"), Err(CamelError::WrongCardCount));
    assert_eq!(HandAndBid::parse("32T3K"), Err(CamelError::BadBid));
    let a = HandAndBid::parse("KK677 28").unwrap();
    let b = HandAndBid::parse("KTJJT 220").unwrap();
    assert!(a < b);
    let c = HandAndBid::parse("QQQJA 483").unwrap();
    let d = HandAndBid::parse("T55J5 684").unwrap();
    assert!(c > d);
}

#[test]
fn ranked_winnings() {
    let lines = ["32T3K 765", "T55J5 684", "KK677 28", "KTJJT 220", "QQQJA 483"];
    let hands: Vec<HandAndBid> = lines.iter().map(|l| HandAndBid::parse(l).unwrap()).collect();
    let ranked = aoc23::camel::rank(hands);
    let order: Vec<&str> = ranked.iter().map(|h| h.cards.as_str()).collect();
    assert_eq!(order, vec!["32T3K", "KK677", "T55J5", "QQQJA", "KTJJT"]);
    let hands: Vec<HandAndBid> = lines.iter().map(|l| HandAndBid::parse(l).unwrap()).collect();
    assert_eq!(aoc23::camel::total_winnings(hands), Some(5905));
    assert_eq!(aoc23::camel::total_winnings(vec![]), Some(0));
}
