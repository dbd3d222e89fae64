use vstd::prelude::*;
use std::cmp::Ordering;
use crate::text::{chars_of, parse_usize, split_words, words, is_unsigned, decimal, unsigned_digits};

verus! {

/// A card; the jack of the plain game plays as a joker, the weakest card.
#[derive(Debug, PartialEq, Eq, Hash, Clone, Copy, Structural)]
pub enum Card {
    Ace,
    King,
    Queen,
    Ten,
    Nine,
    Eight,
    Seven,
    Six,
    Five,
    Four,
    Three,
    Two,
    Joker,
}

impl Card {
    pub open spec fn spec_value(self) -> int {
        match self {
            Card::Ace => 14,
            Card::King => 13,
            Card::Queen => 12,
            Card::Ten => 10,
            Card::Nine => 9,
            Card::Eight => 8,
            Card::Seven => 7,
            Card::Six => 6,
            Card::Five => 5,
            Card::Four => 4,
            Card::Three => 3,
            Card::Two => 2,
            Card::Joker => 1,
        }
    }

    /// The card's strength: 14 for an ace down to 2 for a two, and 1 for a joker.
    pub fn value(&self) -> (r: u8)
        ensures
            r == self.spec_value(),
    {
        match self {
            Card::Ace => 14,
            Card::King => 13,
            Card::Queen => 12,
            Card::Ten => 10,
            Card::Nine => 9,
            Card::Eight => 8,
            Card::Seven => 7,
            Card::Six => 6,
            Card::Five => 5,
            Card::Four => 4,
            Card::Three => 3,
            Card::Two => 2,
            Card::Joker => 1,
        }
    }

    /// The card that `c` names, if any.
    pub open spec fn of_char(c: char) -> Option<Card> {
        if c == 'A' {
            Some(Card::Ace)
        } else if c == 'K' {
            Some(Card::King)
        } else if c == 'Q' {
            Some(Card::Queen)
        } else if c == 'T' {
            Some(Card::Ten)
        } else if c == '9' {
            Some(Card::Nine)
        } else if c == '8' {
            Some(Card::Eight)
        } else if c == '7' {
            Some(Card::Seven)
        } else if c == '6' {
            Some(Card::Six)
        } else if c == '5' {
            Some(Card::Five)
        } else if c == '4' {
            Some(Card::Four)
        } else if c == '3' {
            Some(Card::Three)
        } else if c == '2' {
            Some(Card::Two)
        } else if c == 'J' {
            Some(Card::Joker)
        } else {
            None
        }
    }

    /// Reads a card from its character.
    pub fn try_from(c: char) -> (r: Result<Card, CamelError>)
        ensures
            match Card::of_char(c) {
                Some(card) => r == Ok::<Card, CamelError>(card),
                None => r == Err::<Card, CamelError>(CamelError::InvalidCard),
            },
    {
        match c {
            'A' => Ok(Card::Ace),
            'K' => Ok(Card::King),
            'Q' => Ok(Card::Queen),
            'T' => Ok(Card::Ten),
            '9' => Ok(Card::Nine),
            '8' => Ok(Card::Eight),
            '7' => Ok(Card::Seven),
            '6' => Ok(Card::Six),
            '5' => Ok(Card::Five),
            '4' => Ok(Card::Four),
            '3' => Ok(Card::Three),
            '2' => Ok(Card::Two),
            'J' => Ok(Card::Joker),
            _ => Err(CamelError::InvalidCard),
        }
    }
}

pub open spec fn cmp_int(a: int, b: int) -> Ordering {
    if a < b {
        Ordering::Less
    } else if a == b {
        Ordering::Equal
    } else {
        Ordering::Greater
    }
}

fn cmp_u8(a: u8, b: u8) -> (r: Ordering)
    ensures
        r == cmp_int(a as int, b as int),
{
    if a < b {
        Ordering::Less
    } else if a == b {
        Ordering::Equal
    } else {
        Ordering::Greater
    }
}

/// Cards compare by strength.
impl PartialOrd for Card {
    fn partial_cmp(&self, other: &Card) -> (r: Option<Ordering>)
        ensures
            r == Some(cmp_int(self.spec_value(), other.spec_value())),
    {
        Some(cmp_u8(self.value(), other.value()))
    }
}

impl vstd::std_specs::cmp::PartialOrdSpecImpl for Card {
    open spec fn obeys_partial_cmp_spec() -> bool {
        true
    }

    open spec fn partial_cmp_spec(&self, other: &Card) -> Option<Ordering> {
        Some(cmp_int(self.spec_value(), other.spec_value()))
    }
}

/// Why a hand could not be read.
#[derive(Debug, Clone, Copy, PartialEq, Eq, Structural)]
pub enum CamelError {
    /// A character that names no card.
    InvalidCard,
    /// Not five cards.
    WrongCardCount,
    /// No cards on the line.
    NoHand,
    /// No bid on the line, or one that is not an unsigned number.
    BadBid,
}

/// The type of a hand, strongest first.
#[derive(Debug, PartialEq, Eq, Hash, Clone, Copy, Structural)]
pub enum Hand {
    FiveOfAKind,
    FourOfAKind,
    FullHouse,
    ThreeOfAKind,
    TwoPair,
    OnePair,
    HighCard,
}

impl Hand {
    pub open spec fn spec_rank(self) -> int {
        match self {
            Hand::FiveOfAKind => 7,
            Hand::FourOfAKind => 6,
            Hand::FullHouse => 5,
            Hand::ThreeOfAKind => 4,
            Hand::TwoPair => 3,
            Hand::OnePair => 2,
            Hand::HighCard => 1,
        }
    }

    /// The type's strength, from 7 for five of a kind down to 1 for a high card.
    pub fn rank(&self) -> (r: usize)
        ensures
            r == self.spec_rank(),
    {
        match self {
            Hand::FiveOfAKind => 7,
            Hand::FourOfAKind => 6,
            Hand::FullHouse => 5,
            Hand::ThreeOfAKind => 4,
            Hand::TwoPair => 3,
            Hand::OnePair => 2,
            Hand::HighCard => 1,
        }
    }
}

/// Hand types compare by rank.
impl PartialOrd for Hand {
    fn partial_cmp(&self, other: &Hand) -> (r: Option<Ordering>)
        ensures
            r == Some(cmp_int(self.spec_rank(), other.spec_rank())),
    {
        let a = self.rank();
        let b = other.rank();
        Some(
            if a < b {
                Ordering::Less
            } else if a == b {
                Ordering::Equal
            } else {
                Ordering::Greater
            },
        )
    }
}

impl vstd::std_specs::cmp::PartialOrdSpecImpl for Hand {
    open spec fn obeys_partial_cmp_spec() -> bool {
        true
    }

    open spec fn partial_cmp_spec(&self, other: &Hand) -> Option<Ordering> {
        Some(cmp_int(self.spec_rank(), other.spec_rank()))
    }
}


/// How many of `cards` have strength `v`.
pub open spec fn count_value(cards: Seq<Card>, v: int) -> int
    decreases cards.len(),
{
    if cards.len() == 0 {
        0
    } else {
        count_value(cards.drop_last(), v) + if cards.last().spec_value() == v {
            1int
        } else {
            0int
        }
    }
}

/// How many strengths from 2 up to `hi` (the cards other than jokers) occur exactly
/// `k` times among `cards`.
pub open spec fn kinds_with(cards: Seq<Card>, k: int, hi: int) -> int
    decreases hi,
{
    if hi < 2 {
        0
    } else {
        kinds_with(cards, k, hi - 1) + if count_value(cards, hi) == k {
            1int
        } else {
            0int
        }
    }
}

/// The type of a hand with `j` jokers, whose other cards form `n5` groups of five
/// equal cards, `n4` of four, and so on: each joker counts as whatever card makes
/// the hand strongest.
pub open spec fn hand_type(j: int, n5: int, n4: int, n3: int, n2: int, n1: int) -> Hand {
    if j == 5 || n5 == 1 || (n4 == 1 && j == 1) || (n3 == 1 && j == 2) || (n2 == 1 && j == 3) || (
    n1 == 1 && j == 4) {
        Hand::FiveOfAKind
    } else if n4 == 1 || j == 4 || (n3 >= 1 && j >= 1) || (n2 >= 1 && j >= 2) || (n1 >= 1 && j
        >= 3) {
        Hand::FourOfAKind
    } else if (n3 == 1 && n2 == 1) || (n3 >= 1 && n1 >= 1 && j >= 1) || (n3 >= 1 && j >= 2) || (
    n2 >= 2 && j >= 1) || (n2 >= 1 && n1 >= 1 && j >= 2) || (n2 >= 1 && j >= 3) || (n1 >= 2 && j
        >= 3) {
        Hand::FullHouse
    } else if n3 == 1 || (n2 >= 1 && j >= 1) || (n1 >= 1 && j >= 2) || j >= 3 {
        Hand::ThreeOfAKind
    } else if n2 >= 2 || (n2 >= 1 && n1 >= 1 && j >= 1) || (n2 >= 1 && j >= 2) || (n1 >= 2 && j
        >= 2) || (n1 >= 1 && j >= 3) || j >= 4 {
        Hand::TwoPair
    } else if n2 >= 1 || (n1 >= 1 && j >= 1) || j >= 2 {
        Hand::OnePair
    } else {
        Hand::HighCard
    }
}

/// The type of a hand of five cards.
pub open spec fn classify(cards: Seq<Card>) -> Hand {
    hand_type(
        count_value(cards, 1),
        kinds_with(cards, 5, 14),
        kinds_with(cards, 4, 14),
        kinds_with(cards, 3, 14),
        kinds_with(cards, 2, 14),
        kinds_with(cards, 1, 14),
    )
}

fn count_of_value(cards: &Vec<Card>, v: u8) -> (r: usize)
    ensures
        r == count_value(cards@, v as int),
        r <= cards@.len(),
{
    let mut n: usize = 0;
    let mut i: usize = 0;
    while i < cards.len()
        invariant
            i <= cards@.len(),
            n == count_value(cards@.take(i as int), v as int),
            n <= i,
        decreases cards@.len() - i,
    {
        assert(cards@.take(i + 1).drop_last() =~= cards@.take(i as int));
        if cards[i].value() == v {
            n += 1;
        }
        i += 1;
    }
    assert(cards@.take(i as int) =~= cards@);
    n
}

impl Hand {
    /// The type of a hand of five cards.
    pub fn try_from(cards: Vec<Card>) -> (r: Result<Hand, CamelError>)
        ensures
            cards@.len() != 5 ==> r == Err::<Hand, CamelError>(CamelError::WrongCardCount),
            cards@.len() == 5 ==> r == Ok::<Hand, CamelError>(classify(cards@)),
    {
        if cards.len() != 5 {
            return Err(CamelError::WrongCardCount);
        }
        let joker_count = count_of_value(&cards, 1);
        let mut n_five: usize = 0;
        let mut n_four: usize = 0;
        let mut n_three: usize = 0;
        let mut n_two: usize = 0;
        let mut n_one: usize = 0;
        let mut v: u8 = 2;
        while v <= 14
            invariant
                2 <= v <= 15,
                n_five == kinds_with(cards@, 5, v - 1),
                n_four == kinds_with(cards@, 4, v - 1),
                n_three == kinds_with(cards@, 3, v - 1),
                n_two == kinds_with(cards@, 2, v - 1),
                n_one == kinds_with(cards@, 1, v - 1),
                n_five <= v && n_four <= v && n_three <= v && n_two <= v && n_one <= v,
            decreases 15 - v,
        {
            let c = count_of_value(&cards, v);
            if c == 5 {
                n_five += 1;
            } else if c == 4 {
                n_four += 1;
            } else if c == 3 {
                n_three += 1;
            } else if c == 2 {
                n_two += 1;
            } else if c == 1 {
                n_one += 1;
            }
            v += 1;
        }
        let j = joker_count;
        if j == 5 || n_five == 1 || (n_four == 1 && j == 1) || (n_three == 1 && j == 2) || (n_two
            == 1 && j == 3) || (n_one == 1 && j == 4) {
            return Ok(Hand::FiveOfAKind);
        }
        if n_four == 1 || j == 4 || (n_three >= 1 && j >= 1) || (n_two >= 1 && j >= 2) || (n_one
            >= 1 && j >= 3) {
            return Ok(Hand::FourOfAKind);
        }
        if (n_three == 1 && n_two == 1) || (n_three >= 1 && n_one >= 1 && j >= 1) || (n_three >= 1
            && j >= 2) || (n_two >= 2 && j >= 1) || (n_two >= 1 && n_one >= 1 && j >= 2) || (n_two
            >= 1 && j >= 3) || (n_one >= 2 && j >= 3) {
            return Ok(Hand::FullHouse);
        }
        if n_three == 1 || (n_two >= 1 && j >= 1) || (n_one >= 1 && j >= 2) || j >= 3 {
            return Ok(Hand::ThreeOfAKind);
        }
        if n_two >= 2 || (n_two >= 1 && n_one >= 1 && j >= 1) || (n_two >= 1 && j >= 2) || (n_one
            >= 2 && j >= 2) || (n_one >= 1 && j >= 3) || j >= 4 {
            return Ok(Hand::TwoPair);
        }
        if n_two >= 1 || (n_one >= 1 && j >= 1) || j >= 2 {
            return Ok(Hand::OnePair);
        }
        Ok(Hand::HighCard)
    }
}


pub open spec fn all_cards(s: Seq<char>) -> bool {
    forall|i: int| 0 <= i < s.len() ==> (#[trigger] Card::of_char(s[i])) is Some
}

pub open spec fn card_at(s: Seq<char>, i: int) -> Card {
    match Card::of_char(s[i]) {
        Some(k) => k,
        None => Card::Joker,
    }
}

/// The cards that the characters of `s` name.
pub open spec fn cards_of(s: Seq<char>) -> Seq<Card> {
    Seq::new(s.len(), |i: int| card_at(s, i))
}

/// The type of the hand that `s` writes.
pub open spec fn hand_text(s: Seq<char>) -> Result<Hand, CamelError> {
    if !all_cards(s) {
        Err(CamelError::InvalidCard)
    } else if s.len() != 5 {
        Err(CamelError::WrongCardCount)
    } else {
        Ok(classify(cards_of(s)))
    }
}

/// The cards, type and bid that a line `cards bid` writes.
pub open spec fn hand_and_bid_text(line: Seq<char>) -> Result<(Seq<char>, Hand, int), CamelError> {
    let ws = words(line);
    if ws.len() == 0 {
        Err(CamelError::NoHand)
    } else {
        match hand_text(ws[0]) {
            Err(e) => Err(e),
            Ok(h) => if ws.len() < 2 || !is_unsigned(ws[1], usize::MAX as int) {
                Err(CamelError::BadBid)
            } else {
                Ok((ws[0], h, decimal(unsigned_digits(ws[1]))))
            },
        }
    }
}

/// Two strings of cards compared at the first place where they differ, by the
/// strength of the cards there; `None` where a character there names no card.
pub open spec fn cmp_card_text(a: Seq<char>, b: Seq<char>) -> Option<Ordering>
    decreases a.len(),
{
    if a.len() == 0 || b.len() == 0 {
        Some(Ordering::Equal)
    } else if a[0] == b[0] {
        cmp_card_text(a.drop_first(), b.drop_first())
    } else {
        match (Card::of_char(a[0]), Card::of_char(b[0])) {
            (Some(x), Some(y)) => Some(cmp_int(x.spec_value(), y.spec_value())),
            _ => None,
        }
    }
}

/// A line of the game: the cards as written, the hand's type and the bid.
#[derive(Debug, PartialEq, Eq)]
pub struct HandAndBid {
    pub cards: String,
    pub hand: Hand,
    pub bid: usize,
}

impl HandAndBid {
    /// Reads a line `cards bid`.
    pub fn parse(line: &str) -> (r: Result<HandAndBid, CamelError>)
        ensures
            r matches Ok(h) ==> hand_and_bid_text(line@) == Ok::<(Seq<char>, Hand, int), CamelError>(
                (h.cards@, h.hand, h.bid as int),
            ),
            r matches Err(e) ==> hand_and_bid_text(line@) == Err::<(Seq<char>, Hand, int), CamelError>(e),
    {
        let parts = split_words(line);
        let ghost ws = words(line@);
        if parts.len() == 0 {
            return Err(CamelError::NoHand);
        }
        assert(parts@[0]@ == ws[0]);
        let cards = parts[0].clone();
        let chars = chars_of(parts[0].as_str());
        let mut hand: Vec<Card> = Vec::new();
        let mut i: usize = 0;
        while i < chars.len()
            invariant
                ws == words(line@),
                ws.len() > 0,
                chars@ == ws[0],
                i <= chars@.len(),
                hand@ == cards_of(chars@).take(i as int),
                forall|k: int| 0 <= k < i ==> (#[trigger] Card::of_char(chars@[k])) is Some,
            decreases chars@.len() - i,
        {
            match Card::try_from(chars[i]) {
                Ok(card) => {
                    hand.push(card);
                },
                Err(e) => {
                    assert(Card::of_char(chars@[i as int]) is None);
                    assert(!all_cards(ws[0]));
                    assert(e == CamelError::InvalidCard);
                    assert(hand_text(ws[0]) == Err::<Hand, CamelError>(CamelError::InvalidCard));
                    return Err(e);
                },
            }
            i += 1;
            assert(hand@ =~= cards_of(chars@).take(i as int));
        }
        assert(hand@ =~= cards_of(chars@));
        let hand = Hand::try_from(hand)?;
        if parts.len() < 2 {
            return Err(CamelError::BadBid);
        }
        assert(parts@[1]@ == ws[1]);
        let bid = match parse_usize(parts[1].as_str()) {
            Some(b) => b,
            None => {
                return Err(CamelError::BadBid);
            },
        };
        Ok(HandAndBid { cards, hand, bid })
    }
}

fn cmp_cards(a: &Vec<char>, b: &Vec<char>) -> (r: Option<Ordering>)
    ensures
        r == cmp_card_text(a@, b@),
{
    let mut i: usize = 0;
    assert(a@.skip(0) =~= a@);
    assert(b@.skip(0) =~= b@);
    while i < a.len() && i < b.len()
        invariant
            i <= a@.len(),
            i <= b@.len(),
            cmp_card_text(a@, b@) == cmp_card_text(a@.skip(i as int), b@.skip(i as int)),
        decreases a@.len() - i,
    {
        let x = a[i];
        let y = b[i];
        assert(a@.skip(i as int)[0] == x && b@.skip(i as int)[0] == y);
        if x != y {
            let left = match Card::try_from(x) {
                Ok(c) => c,
                Err(_) => {
                    return None;
                },
            };
            let right = match Card::try_from(y) {
                Ok(c) => c,
                Err(_) => {
                    return None;
                },
            };
            return left.partial_cmp(&right);
        }
        assert(a@.skip(i as int).drop_first() =~= a@.skip(i + 1));
        assert(b@.skip(i as int).drop_first() =~= b@.skip(i + 1));
        i += 1;
    }
    Some(Ordering::Equal)
}

/// Lines compare by the hand's type, then by the cards as written.
impl PartialOrd for HandAndBid {
    fn partial_cmp(&self, other: &HandAndBid) -> (r: Option<Ordering>)
        ensures
            r == hand_and_bid_cmp(self, other),
    {
        match self.hand.partial_cmp(&other.hand) {
            Some(Ordering::Equal) => {
                let a = chars_of(self.cards.as_str());
                let b = chars_of(other.cards.as_str());
                cmp_cards(&a, &b)
            },
            o => o,
        }
    }
}

pub open spec fn hand_and_bid_cmp(a: &HandAndBid, b: &HandAndBid) -> Option<Ordering> {
    if a.hand.spec_rank() == b.hand.spec_rank() {
        cmp_card_text(a.cards@, b.cards@)
    } else {
        Some(cmp_int(a.hand.spec_rank(), b.hand.spec_rank()))
    }
}

impl vstd::std_specs::cmp::PartialOrdSpecImpl for HandAndBid {
    open spec fn obeys_partial_cmp_spec() -> bool {
        true
    }

    open spec fn partial_cmp_spec(&self, other: &HandAndBid) -> Option<Ordering> {
        hand_and_bid_cmp(self, other)
    }
}


/// The position of the first of `s` that ranks above `x`, or `s.len()`.
pub open spec fn first_above(s: Seq<HandAndBid>, x: HandAndBid) -> int
    decreases s.len(),
{
    if s.len() == 0 {
        0
    } else if hand_and_bid_cmp(&s[0], &x) == Some(Ordering::Greater) {
        0
    } else {
        1 + first_above(s.drop_first(), x)
    }
}

proof fn lemma_first_above(s: Seq<HandAndBid>, x: HandAndBid)
    ensures
        0 <= first_above(s, x) <= s.len(),
        forall|k: int| 0 <= k < first_above(s, x) ==> hand_and_bid_cmp(&#[trigger] s[k], &x) != Some(Ordering::Greater),
        first_above(s, x) < s.len() ==> hand_and_bid_cmp(&s[first_above(s, x)], &x) == Some(Ordering::Greater),
    decreases s.len(),
{
    if s.len() > 0 && hand_and_bid_cmp(&s[0], &x) != Some(Ordering::Greater) {
        lemma_first_above(s.drop_first(), x);
        assert forall|k: int| 0 <= k < first_above(s, x) implies hand_and_bid_cmp(&#[trigger] s[k], &x) != Some(Ordering::Greater) by {
            if k > 0 {
                assert(s[k] == s.drop_first()[k - 1]);
            }
        }
    }
}

/// The lines ranked from weakest to strongest: each line in turn goes after those
/// that do not rank above it (a stable insertion sort).
pub open spec fn rank_hands(s: Seq<HandAndBid>) -> Seq<HandAndBid>
    decreases s.len(),
{
    if s.len() == 0 {
        s
    } else {
        let r = rank_hands(s.drop_last());
        r.insert(first_above(r, s.last()), s.last())
    }
}

/// The sum over the first `n` ranked lines of bid times rank (rank 1 the weakest).
pub open spec fn winnings(s: Seq<HandAndBid>, n: int) -> int
    decreases n,
{
    if n <= 0 {
        0
    } else {
        winnings(s, n - 1) + s[n - 1].bid * n
    }
}

proof fn lemma_winnings_grow(s: Seq<HandAndBid>, i: int, j: int)
    requires
        0 <= i <= j <= s.len(),
    ensures
        0 <= winnings(s, i) <= winnings(s, j),
    decreases j,
{
    if i < j {
        lemma_winnings_grow(s, i, j - 1);
        assert(s[j - 1].bid * j >= 0) by (nonlinear_arith)
            requires
                j >= 0,
        ;
    } else {
        lemma_winnings_nonneg(s, i);
    }
}

proof fn lemma_winnings_nonneg(s: Seq<HandAndBid>, n: int)
    requires
        0 <= n <= s.len(),
    ensures
        winnings(s, n) >= 0,
    decreases n,
{
    if n > 0 {
        lemma_winnings_nonneg(s, n - 1);
        assert(s[n - 1].bid * n >= 0) by (nonlinear_arith)
            requires
                n >= 0,
        ;
    }
}

fn ranks_above(a: &HandAndBid, b: &HandAndBid) -> (r: bool)
    ensures
        r == (hand_and_bid_cmp(a, b) == Some(Ordering::Greater)),
{
    match a.partial_cmp(b) {
        Some(Ordering::Greater) => true,
        _ => false,
    }
}

/// The lines ranked from weakest to strongest.
pub fn rank(hands: Vec<HandAndBid>) -> (r: Vec<HandAndBid>)
    ensures
        r@ == rank_hands(hands@),
{
    let ghost all = hands@;
    let n = hands.len();
    let mut rest = hands;
    let mut sorted: Vec<HandAndBid> = Vec::new();
    let mut i: usize = 0;
    assert(all.take(0) =~= Seq::<HandAndBid>::empty());
    assert(rest@ =~= all.skip(0));
    while rest.len() > 0
        invariant
            n == all.len(),
            i <= all.len(),
            rest@ == all.skip(i as int),
            sorted@ == rank_hands(all.take(i as int)),
        decreases rest@.len(),
    {
        let x = rest.remove(0);
        assert(all.skip(i as int)[0] == all[i as int]);
        assert(all.skip(i as int).remove(0) =~= all.skip(i + 1));
        let ghost r = sorted@;
        proof {
            lemma_first_above(r, x);
        }
        let mut p: usize = 0;
        while p < sorted.len() && !ranks_above(&sorted[p], &x)
            invariant
                sorted@ == r,
                p <= r.len(),
                p <= first_above(r, x),
                0 <= first_above(r, x) <= r.len(),
                forall|k: int| 0 <= k < first_above(r, x) ==> hand_and_bid_cmp(&#[trigger] r[k], &x) != Some(Ordering::Greater),
                first_above(r, x) < r.len() ==> hand_and_bid_cmp(&r[first_above(r, x)], &x) == Some(Ordering::Greater),
            decreases r.len() - p,
        {
            p += 1;
        }
        sorted.insert(p, x);
        assert(all.take(i + 1).drop_last() =~= all.take(i as int));
        assert(all.take(i + 1).last() == all[i as int]);
        i += 1;
    }
    assert(all.take(i as int) =~= all);
    sorted
}

/// The total winnings: the lines ranked from weakest to strongest, each bid times its
/// rank, summed; `None` where the sum is too large for `usize`.
pub fn total_winnings(hands: Vec<HandAndBid>) -> (r: Option<usize>)
    ensures
        ({
            let s = rank_hands(hands@);
            &&& winnings(s, s.len() as int) <= usize::MAX ==> r == Some(winnings(s, s.len() as int) as usize)
            &&& winnings(s, s.len() as int) > usize::MAX ==> r is None
        }),
{
    let ghost h = hands@;
    let ranked = rank(hands);
    let ghost s = ranked@;
    let mut total: usize = 0;
    let mut i: usize = 0;
    while i < ranked.len()
        invariant
            s == ranked@,
            s == rank_hands(h),
            h == hands@,
            i <= s.len(),
            total == winnings(s, i as int),
        decreases s.len() - i,
    {
        let bid = ranked[i].bid;
        assert(winnings(s, i + 1) == winnings(s, i as int) + bid * (i + 1));
        let term = match bid.checked_mul(i + 1) {
            Some(t) => t,
            None => {
                proof {
                    lemma_winnings_grow(s, i + 1, s.len() as int);
                    lemma_winnings_nonneg(s, i as int);
                }
                return None;
            },
        };
        match total.checked_add(term) {
            Some(t) => {
                total = t;
            },
            None => {
                proof {
                    lemma_winnings_grow(s, i + 1, s.len() as int);
                }
                return None;
            },
        }
        i += 1;
    }
    Some(total)
}

} // verus!
