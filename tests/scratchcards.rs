use aoc23::scratchcards::{Card, CardError};

#[test]
fn scratchcard_points() {
    let lines = [
        "Card 1: 41 48 83 86 17 | 83 86  6 31 17  9 48 53",
        "Card 2: 13 32 20 16 61 | 61 30 68 82 17 32 24 19",
        "Card 3:  1 21 53 59 44 | 69 82 63 72 16 21 14  1",
        "Card 4: 41 92 73 84 69 | 59 84 76 51 58  5 54 83",
        "Card 5: 87 83 26 28 32 | 88 30 70 12 93 22 82 36",
        "Card   6: 31 18 13 56 72 | 74 77 10 23 35 67 36 11",
    ];
    let cards: Vec<Card> = lines.iter().map(|l| Card::parse(l).unwrap()).collect();
    assert_eq!(cards[0].id, 1);
    assert_eq!(cards[5].id, 6);
    assert_eq!(cards[0].winning_numbers, vec![41, 48, 83, 86, 17]);
    assert_eq!(cards[0].matches(), 4);
    let scores: Vec<usize> = cards.iter().map(|c| c.score()).collect();
    assert_eq!(scores, vec![8, 2, 2, 1, 0, 0]);
    assert_eq!(scores.iter().sum::<usize>(), 13);
    let wins: Vec<usize> = cards.iter().map(|c| c.matches()).collect();
    assert_eq!(wins, vec![4, 2, 2, 1, 0, 0]);
    assert_eq!(aoc23::scratchcards::total_cards(&wins), Some(30));
    assert_eq!(aoc23::scratchcards::total_cards(&vec![]), Some(0));
    let dup = Card::parse("Card 7: 5 5 | 5").unwrap();
    assert_eq!(dup.matches(), 1);
    assert_eq!(Card::parse("Card 7 5 | 5"), Err(CardError::InvalidLine));
    assert_eq!(Card::parse("Card\t8: 1 | 2").unwrap().id, 8);
    assert_eq!(Card::parse("Card8: 1 | 2"), Err(CardError::InvalidLine));
    assert_eq!(Card::parse("Card 99999999999999999999999: 1 | 1"), Err(CardError::BadNumber));
}
