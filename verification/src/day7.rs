//! Card hands: the category of a hand of five cards, the order of hands, and
//! the winnings of a list of hands with their bets.
use crate::text::{
    is_unsigned, lines, parse_unsigned, split_lines, split_words, texts, to_chars, unsigned_value,
    words,
};
use std::cmp::Ordering;
use vstd::prelude::*;

verus! {

/// The rank of a card. The joker is the wildcard: it stands for whatever rank
/// serves the hand best, and is the lowest card when hands are compared.
#[derive(PartialEq, Eq, Structural, PartialOrd, Ord, Clone, Copy, Hash, Debug)]
pub enum Card {
    Joker,
    Two,
    Three,
    Four,
    Five,
    Six,
    Seven,
    Eight,
    Nine,
    Ten,
    Jack,
    Queen,
    King,
    Ace,
}

/// The seven categories of hands, from the weakest to the strongest.
#[derive(PartialEq, Eq, Structural, PartialOrd, Ord, Clone, Copy, Hash, Debug)]
pub enum Category {
    HighCard,
    OnePair,
    TwoPairs,
    ThreeOfAKind,
    FullHouse,
    FourOfAKind,
    FiveOfAKind,
}

/// Five cards in the order in which they were drawn, with the bet placed on
/// them, under the category to which they belong.
#[derive(PartialEq, Eq, Clone, Copy, Debug)]
pub enum Hand {
    HighCard([Card; 5], u64),
    OnePair([Card; 5], u64),
    TwoPairs([Card; 5], u64),
    ThreeOfAKind([Card; 5], u64),
    FullHouse([Card; 5], u64),
    FourOfAKind([Card; 5], u64),
    FiveOfAKind([Card; 5], u64),
}

impl Card {
    /// The face value by which cards are compared.
    pub open spec fn value(self) -> int {
        match self {
            Card::Joker => 1,
            Card::Two => 2,
            Card::Three => 3,
            Card::Four => 4,
            Card::Five => 5,
            Card::Six => 6,
            Card::Seven => 7,
            Card::Eight => 8,
            Card::Nine => 9,
            Card::Ten => 10,
            Card::Jack => 11,
            Card::Queen => 12,
            Card::King => 13,
            Card::Ace => 14,
        }
    }

    /// The card that a character stands for. With the wildcard rule `J` is the
    /// joker, without it the jack.
    pub open spec fn of_char(c: char, wildcard: bool) -> Option<Card> {
        if c == 'A' {
            Some(Card::Ace)
        } else if c == '2' {
            Some(Card::Two)
        } else if c == '3' {
            Some(Card::Three)
        } else if c == '4' {
            Some(Card::Four)
        } else if c == '5' {
            Some(Card::Five)
        } else if c == '6' {
            Some(Card::Six)
        } else if c == '7' {
            Some(Card::Seven)
        } else if c == '8' {
            Some(Card::Eight)
        } else if c == '9' {
            Some(Card::Nine)
        } else if c == 'T' {
            Some(Card::Ten)
        } else if c == 'J' {
            if wildcard {
                Some(Card::Joker)
            } else {
                Some(Card::Jack)
            }
        } else if c == 'Q' {
            Some(Card::Queen)
        } else if c == 'K' {
            Some(Card::King)
        } else {
            None
        }
    }

    /// The face value of the card.
    pub fn face_value(&self) -> (v: u64)
        ensures
            v == self.value(),
    {
        match self {
            Card::Joker => 1,
            Card::Two => 2,
            Card::Three => 3,
            Card::Four => 4,
            Card::Five => 5,
            Card::Six => 6,
            Card::Seven => 7,
            Card::Eight => 8,
            Card::Nine => 9,
            Card::Ten => 10,
            Card::Jack => 11,
            Card::Queen => 12,
            Card::King => 13,
            Card::Ace => 14,
        }
    }

    /// The card that `c` stands for, if it stands for one.
    pub fn from_char(c: char, wildcard: bool) -> (card: Option<Card>)
        ensures
            card == Card::of_char(c, wildcard),
    {
        match c {
            'A' => Some(Card::Ace),
            '2' => Some(Card::Two),
            '3' => Some(Card::Three),
            '4' => Some(Card::Four),
            '5' => Some(Card::Five),
            '6' => Some(Card::Six),
            '7' => Some(Card::Seven),
            '8' => Some(Card::Eight),
            '9' => Some(Card::Nine),
            'T' => Some(Card::Ten),
            'J' => if wildcard {
                Some(Card::Joker)
            } else {
                Some(Card::Jack)
            },
            'Q' => Some(Card::Queen),
            'K' => Some(Card::King),
            _ => None,
        }
    }

    /// The card that `s` stands for under the wildcard rule.
    pub fn from(s: char) -> (card: Card)
        requires
            Card::of_char(s, true) is Some,
        ensures
            Some(card) == Card::of_char(s, true),
    {
        match Card::from_char(s, true) {
            Some(card) => card,
            None => vstd::pervasive::unreached(),
        }
    }
}

impl From<&Card> for u64 {
    fn from(card: &Card) -> (v: u64) {
        card.face_value()
    }
}

impl vstd::std_specs::convert::FromSpecImpl<&Card> for u64 {
    open spec fn obeys_from_spec() -> bool {
        true
    }

    open spec fn from_spec(card: &Card) -> u64 {
        card.value() as u64
    }
}

impl From<&Hand> for u64 {
    /// The place of the category of the hand among the seven, from 1 for the
    /// weakest.
    fn from(hand: &Hand) -> (v: u64) {
        match hand {
            Hand::HighCard(_, _) => 1,
            Hand::OnePair(_, _) => 2,
            Hand::TwoPairs(_, _) => 3,
            Hand::ThreeOfAKind(_, _) => 4,
            Hand::FullHouse(_, _) => 5,
            Hand::FourOfAKind(_, _) => 6,
            Hand::FiveOfAKind(_, _) => 7,
        }
    }
}

impl vstd::std_specs::convert::FromSpecImpl<&Hand> for u64 {
    open spec fn obeys_from_spec() -> bool {
        true
    }

    open spec fn from_spec(hand: &Hand) -> u64 {
        hand.category().rank() as u64
    }
}

impl Category {
    /// The place of the category among the seven, from 1 for the weakest.
    pub open spec fn rank(self) -> int {
        match self {
            Category::HighCard => 1,
            Category::OnePair => 2,
            Category::TwoPairs => 3,
            Category::ThreeOfAKind => 4,
            Category::FullHouse => 5,
            Category::FourOfAKind => 6,
            Category::FiveOfAKind => 7,
        }
    }
}

/// 1 if the two cards have the same rank, else 0.
pub open spec fn same_rank(a: Card, b: Card) -> nat {
    if a == b {
        1
    } else {
        0
    }
}

/// How many of the cards have the rank `rank`.
pub open spec fn count_of(cards: Seq<Card>, rank: Card) -> nat
    decreases cards.len(),
{
    if cards.len() == 0 {
        0
    } else {
        count_of(cards.drop_last(), rank) + same_rank(cards.last(), rank)
    }
}

/// 1 if exactly `k` of the cards have the rank `rank`, else 0.
pub open spec fn is_group(cards: Seq<Card>, rank: Card, k: nat) -> nat {
    if count_of(cards, rank) == k {
        1
    } else {
        0
    }
}

/// The number of ranks, the joker not among them, of which there are exactly
/// `k` cards: the number of pairs for 2, of triples for 3, and so on.
pub open spec fn groups_of(cards: Seq<Card>, k: nat) -> nat {
    is_group(cards, Card::Two, k) + is_group(cards, Card::Three, k) + is_group(cards, Card::Four, k)
        + is_group(cards, Card::Five, k) + is_group(cards, Card::Six, k) + is_group(
        cards,
        Card::Seven,
        k,
    ) + is_group(cards, Card::Eight, k) + is_group(cards, Card::Nine, k) + is_group(
        cards,
        Card::Ten,
        k,
    ) + is_group(cards, Card::Jack, k) + is_group(cards, Card::Queen, k) + is_group(
        cards,
        Card::King,
        k,
    ) + is_group(cards, Card::Ace, k)
}

/// The category of a hand without jokers, by its pairs, triples, quadruples and
/// quintuples. Five cards cannot give any other combination of these numbers
/// than the seven that are listed; see `five_cards_have_a_category`.
pub open spec fn plain_category(pairs: nat, triples: nat, quads: nat, quints: nat) -> Option<
    Category,
> {
    if pairs == 0 && triples == 0 && quads == 0 && quints == 0 {
        Some(Category::HighCard)
    } else if pairs == 1 && triples == 0 && quads == 0 && quints == 0 {
        Some(Category::OnePair)
    } else if pairs == 2 && triples == 0 && quads == 0 && quints == 0 {
        Some(Category::TwoPairs)
    } else if pairs == 0 && triples == 1 && quads == 0 && quints == 0 {
        Some(Category::ThreeOfAKind)
    } else if pairs == 1 && triples == 1 && quads == 0 && quints == 0 {
        Some(Category::FullHouse)
    } else if pairs == 0 && triples == 0 && quads == 1 && quints == 0 {
        Some(Category::FourOfAKind)
    } else if pairs == 0 && triples == 0 && quads == 0 && quints == 1 {
        Some(Category::FiveOfAKind)
    } else {
        None
    }
}

/// The category of a hand with `jokers` jokers, by the pairs, triples,
/// quadruples and quintuples among its other cards: the jokers join the group
/// where they help most.
pub open spec fn category_by_groups(
    jokers: nat,
    pairs: nat,
    triples: nat,
    quads: nat,
    quints: nat,
) -> Option<Category> {
    if jokers >= 4 {
        Some(Category::FiveOfAKind)
    } else if jokers == 3 {
        if pairs == 1 {
            Some(Category::FiveOfAKind)
        } else {
            Some(Category::FourOfAKind)
        }
    } else if jokers == 2 {
        if triples == 1 {
            Some(Category::FiveOfAKind)
        } else if pairs == 1 {
            Some(Category::FourOfAKind)
        } else {
            Some(Category::ThreeOfAKind)
        }
    } else if jokers == 1 {
        if quads == 1 {
            Some(Category::FiveOfAKind)
        } else if triples == 1 {
            Some(Category::FourOfAKind)
        } else if pairs == 2 {
            Some(Category::FullHouse)
        } else if pairs == 1 {
            Some(Category::ThreeOfAKind)
        } else {
            Some(Category::OnePair)
        }
    } else {
        plain_category(pairs, triples, quads, quints)
    }
}

/// The category of five cards.
pub open spec fn category_of(cards: Seq<Card>) -> Category {
    category_by_groups(
        count_of(cards, Card::Joker),
        groups_of(cards, 2),
        groups_of(cards, 3),
        groups_of(cards, 4),
        groups_of(cards, 5),
    ).unwrap()
}

/// Every card has exactly one of the fourteen ranks.
proof fn card_has_one_rank(c: Card)
    ensures
        same_rank(c, Card::Joker) + same_rank(c, Card::Two) + same_rank(c, Card::Three) + same_rank(
            c,
            Card::Four,
        ) + same_rank(c, Card::Five) + same_rank(c, Card::Six) + same_rank(c, Card::Seven)
            + same_rank(c, Card::Eight) + same_rank(c, Card::Nine) + same_rank(c, Card::Ten)
            + same_rank(c, Card::Jack) + same_rank(c, Card::Queen) + same_rank(c, Card::King)
            + same_rank(c, Card::Ace) == 1,
{
}

/// The counts of the fourteen ranks add up to the number of cards.
pub proof fn counts_add_up(cards: Seq<Card>)
    ensures
        count_of(cards, Card::Joker) + count_of(cards, Card::Two) + count_of(cards, Card::Three)
            + count_of(cards, Card::Four) + count_of(cards, Card::Five) + count_of(cards, Card::Six)
            + count_of(cards, Card::Seven) + count_of(cards, Card::Eight) + count_of(
            cards,
            Card::Nine,
        ) + count_of(cards, Card::Ten) + count_of(cards, Card::Jack) + count_of(cards, Card::Queen)
            + count_of(cards, Card::King) + count_of(cards, Card::Ace) == cards.len(),
    decreases cards.len(),
{
    if cards.len() > 0 {
        counts_add_up(cards.drop_last());
        card_has_one_rank(cards.last());
    }
}

/// A group of `k` cards of one rank takes `k` of the cards with that rank.
proof fn group_weighs_its_cards(cards: Seq<Card>, rank: Card)
    ensures
        is_group(cards, rank, 1) + 2 * is_group(cards, rank, 2) + 3 * is_group(cards, rank, 3) + 4
            * is_group(cards, rank, 4) + 5 * is_group(cards, rank, 5) <= count_of(cards, rank),
{
}

/// The single cards, pairs, triples, quadruples and quintuples of a hand and
/// its jokers cannot hold more cards than the hand has.
pub proof fn groups_fit_in_hand(cards: Seq<Card>)
    ensures
        count_of(cards, Card::Joker) + groups_of(cards, 1) + 2 * groups_of(cards, 2) + 3
            * groups_of(cards, 3) + 4 * groups_of(cards, 4) + 5 * groups_of(cards, 5)
            <= cards.len(),
{
    counts_add_up(cards);
    group_weighs_its_cards(cards, Card::Two);
    group_weighs_its_cards(cards, Card::Three);
    group_weighs_its_cards(cards, Card::Four);
    group_weighs_its_cards(cards, Card::Five);
    group_weighs_its_cards(cards, Card::Six);
    group_weighs_its_cards(cards, Card::Seven);
    group_weighs_its_cards(cards, Card::Eight);
    group_weighs_its_cards(cards, Card::Nine);
    group_weighs_its_cards(cards, Card::Ten);
    group_weighs_its_cards(cards, Card::Jack);
    group_weighs_its_cards(cards, Card::Queen);
    group_weighs_its_cards(cards, Card::King);
    group_weighs_its_cards(cards, Card::Ace);
}

/// The tables of categories cover every hand of five cards.
pub proof fn five_cards_have_a_category(cards: Seq<Card>)
    requires
        cards.len() == 5,
    ensures
        category_by_groups(
            count_of(cards, Card::Joker),
            groups_of(cards, 2),
            groups_of(cards, 3),
            groups_of(cards, 4),
            groups_of(cards, 5),
        ) is Some,
{
    groups_fit_in_hand(cards);
}

impl Hand {
    /// The category under which the hand stands.
    pub open spec fn category(self) -> Category {
        match self {
            Hand::HighCard(_, _) => Category::HighCard,
            Hand::OnePair(_, _) => Category::OnePair,
            Hand::TwoPairs(_, _) => Category::TwoPairs,
            Hand::ThreeOfAKind(_, _) => Category::ThreeOfAKind,
            Hand::FullHouse(_, _) => Category::FullHouse,
            Hand::FourOfAKind(_, _) => Category::FourOfAKind,
            Hand::FiveOfAKind(_, _) => Category::FiveOfAKind,
        }
    }

    /// The five cards of the hand in the order in which they were drawn.
    pub open spec fn cards(self) -> [Card; 5] {
        match self {
            Hand::HighCard(cards, _) => cards,
            Hand::OnePair(cards, _) => cards,
            Hand::TwoPairs(cards, _) => cards,
            Hand::ThreeOfAKind(cards, _) => cards,
            Hand::FullHouse(cards, _) => cards,
            Hand::FourOfAKind(cards, _) => cards,
            Hand::FiveOfAKind(cards, _) => cards,
        }
    }

    /// The bet placed on the hand.
    pub open spec fn bet(self) -> u64 {
        match self {
            Hand::HighCard(_, bet) => bet,
            Hand::OnePair(_, bet) => bet,
            Hand::TwoPairs(_, bet) => bet,
            Hand::ThreeOfAKind(_, bet) => bet,
            Hand::FullHouse(_, bet) => bet,
            Hand::FourOfAKind(_, bet) => bet,
            Hand::FiveOfAKind(_, bet) => bet,
        }
    }

    /// The hand of the given category with the given cards and bet.
    pub open spec fn of(category: Category, cards: [Card; 5], bet: u64) -> Hand {
        match category {
            Category::HighCard => Hand::HighCard(cards, bet),
            Category::OnePair => Hand::OnePair(cards, bet),
            Category::TwoPairs => Hand::TwoPairs(cards, bet),
            Category::ThreeOfAKind => Hand::ThreeOfAKind(cards, bet),
            Category::FullHouse => Hand::FullHouse(cards, bet),
            Category::FourOfAKind => Hand::FourOfAKind(cards, bet),
            Category::FiveOfAKind => Hand::FiveOfAKind(cards, bet),
        }
    }

    /// Whether the hand stands under the category of its cards.
    pub open spec fn well_formed(self) -> bool {
        self.category() == category_of(self.cards()@)
    }

    /// The category under which the hand stands.
    pub fn get_category(&self) -> (category: Category)
        ensures
            category == self.category(),
    {
        match self {
            Hand::HighCard(_, _) => Category::HighCard,
            Hand::OnePair(_, _) => Category::OnePair,
            Hand::TwoPairs(_, _) => Category::TwoPairs,
            Hand::ThreeOfAKind(_, _) => Category::ThreeOfAKind,
            Hand::FullHouse(_, _) => Category::FullHouse,
            Hand::FourOfAKind(_, _) => Category::FourOfAKind,
            Hand::FiveOfAKind(_, _) => Category::FiveOfAKind,
        }
    }

    /// The five cards of the hand.
    pub fn get_cards(&self) -> (cards: &[Card; 5])
        ensures
            *cards == self.cards(),
    {
        match self {
            Hand::HighCard(cards, _) => cards,
            Hand::OnePair(cards, _) => cards,
            Hand::TwoPairs(cards, _) => cards,
            Hand::ThreeOfAKind(cards, _) => cards,
            Hand::FullHouse(cards, _) => cards,
            Hand::FourOfAKind(cards, _) => cards,
            Hand::FiveOfAKind(cards, _) => cards,
        }
    }

    /// The bet placed on the hand.
    pub fn get_bet(&self) -> (bet: u64)
        ensures
            bet == self.bet(),
    {
        match self {
            Hand::HighCard(_, bet) => *bet,
            Hand::OnePair(_, bet) => *bet,
            Hand::TwoPairs(_, bet) => *bet,
            Hand::ThreeOfAKind(_, bet) => *bet,
            Hand::FullHouse(_, bet) => *bet,
            Hand::FourOfAKind(_, bet) => *bet,
            Hand::FiveOfAKind(_, bet) => *bet,
        }
    }
}

/// How many of the five cards have the rank `rank`.
fn count_rank(cards: &[Card; 5], rank: Card) -> (n: usize)
    ensures
        n == count_of(cards@, rank),
        n <= 5,
{
    let mut n: usize = 0;
    let mut i: usize = 0;
    while i < 5
        invariant
            i <= 5,
            cards@.len() == 5,
            n <= i,
            n == count_of(cards@.take(i as int), rank),
        decreases 5 - i,
    {
        proof {
            assert(cards@.take(i + 1).drop_last() =~= cards@.take(i as int));
        }
        if cards[i] == rank {
            n += 1;
        }
        i += 1;
    }
    proof {
        assert(cards@.take(5) =~= cards@);
    }
    n
}

/// 1 if exactly `k` of the five cards have the rank `rank`, else 0.
fn group_at(cards: &[Card; 5], rank: Card, k: usize) -> (n: usize)
    ensures
        n == is_group(cards@, rank, k as nat),
{
    if count_rank(cards, rank) == k {
        1
    } else {
        0
    }
}

/// The number of ranks other than the joker of which the hand has exactly `k` cards.
fn count_groups(cards: &[Card; 5], k: usize) -> (n: usize)
    ensures
        n == groups_of(cards@, k as nat),
{
    let two = group_at(cards, Card::Two, k);
    let three = group_at(cards, Card::Three, k);
    let four = group_at(cards, Card::Four, k);
    let five = group_at(cards, Card::Five, k);
    let six = group_at(cards, Card::Six, k);
    let seven = group_at(cards, Card::Seven, k);
    let eight = group_at(cards, Card::Eight, k);
    let nine = group_at(cards, Card::Nine, k);
    let ten = group_at(cards, Card::Ten, k);
    let jack = group_at(cards, Card::Jack, k);
    let queen = group_at(cards, Card::Queen, k);
    let king = group_at(cards, Card::King, k);
    let ace = group_at(cards, Card::Ace, k);
    two + three + four + five + six + seven + eight + nine + ten + jack + queen + king + ace
}

/// The category of a hand of five cards.
///
/// The jokers are set aside and the other cards are counted by rank. The pairs,
/// triples, quadruples and quintuples among them, together with the number of
/// jokers, decide the category.
pub fn classify(cards: &[Card; 5]) -> (category: Category)
    ensures
        category == category_of(cards@),
{
    let count_jokers = count_rank(cards, Card::Joker);
    let count_pairs = count_groups(cards, 2);
    let count_triples = count_groups(cards, 3);
    let count_quads = count_groups(cards, 4);
    let count_quints = count_groups(cards, 5);
    proof {
        five_cards_have_a_category(cards@);
    }
    if count_jokers == 5 || count_jokers == 4 {
        return Category::FiveOfAKind;
    }
    if count_jokers == 3 {
        if count_pairs == 1 {
            return Category::FiveOfAKind;
        } else {
            return Category::FourOfAKind;
        }
    }
    if count_jokers == 2 {
        if count_triples == 1 {
            return Category::FiveOfAKind;
        } else if count_pairs == 1 {
            return Category::FourOfAKind;
        } else {
            return Category::ThreeOfAKind;
        }
    }
    if count_jokers == 1 {
        if count_quads == 1 {
            return Category::FiveOfAKind;
        } else if count_triples == 1 {
            return Category::FourOfAKind;
        } else if count_pairs == 2 {
            return Category::FullHouse;
        } else if count_pairs == 1 {
            return Category::ThreeOfAKind;
        } else {
            return Category::OnePair;
        }
    }
    match (count_pairs, count_triples, count_quads, count_quints) {
        (0, 0, 0, 0) => Category::HighCard,
        (1, 0, 0, 0) => Category::OnePair,
        (2, 0, 0, 0) => Category::TwoPairs,
        (0, 1, 0, 0) => Category::ThreeOfAKind,
        (1, 1, 0, 0) => Category::FullHouse,
        (0, 0, 1, 0) => Category::FourOfAKind,
        (0, 0, 0, 1) => Category::FiveOfAKind,
        _ => vstd::pervasive::unreached(),
    }
}

/// Five cards that can be made into a hand.
pub trait IntoHand {
    /// The five cards.
    spec fn drawn(&self) -> Seq<Card>;

    /// The hand of these cards with the given bet, under the category of the cards.
    fn into_hand(self, bet: u64) -> (hand: Hand)
        ensures
            hand.cards()@ == self.drawn(),
            hand.bet() == bet,
            hand.category() == category_of(self.drawn()),
    ;
}

impl IntoHand for [Card; 5] {
    open spec fn drawn(&self) -> Seq<Card> {
        self@
    }

    fn into_hand(self, bet: u64) -> (hand: Hand)
        ensures
            hand == Hand::of(category_of(self@), self, bet),
    {
        match classify(&self) {
            Category::HighCard => Hand::HighCard(self, bet),
            Category::OnePair => Hand::OnePair(self, bet),
            Category::TwoPairs => Hand::TwoPairs(self, bet),
            Category::ThreeOfAKind => Hand::ThreeOfAKind(self, bet),
            Category::FullHouse => Hand::FullHouse(self, bet),
            Category::FourOfAKind => Hand::FourOfAKind(self, bet),
            Category::FiveOfAKind => Hand::FiveOfAKind(self, bet),
        }
    }
}

/// Whether the cards `a` come before the cards `b`: at the first position at
/// which the two differ, the card of `a` has the lower face value.
pub open spec fn cards_below(a: Seq<Card>, b: Seq<Card>) -> bool {
    exists|i: int|
        0 <= i < a.len() && i < b.len() && a[i].value() < b[i].value() && forall|j: int|
            0 <= j < i ==> a[j] == b[j]
}

/// Whether the hand `a` comes before the hand `b` in the order of hands: it has
/// the lower category, or the same category and the cards that come first.
pub open spec fn sorts_before(a: Hand, b: Hand) -> bool {
    a.category().rank() < b.category().rank() || (a.category() == b.category() && cards_below(
        a.cards()@,
        b.cards()@,
    ))
}

/// The category and the face values of the five cards as one number, the
/// category weighing most and the first card next.
pub open spec fn strength(hand: Hand) -> int {
    let c = hand.cards()@;
    ((((hand.category().rank() * 16 + c[0].value()) * 16 + c[1].value()) * 16 + c[2].value()) * 16
        + c[3].value()) * 16 + c[4].value()
}

/// The order of hands is the order of their strengths.
pub proof fn strength_orders_hands(a: Hand, b: Hand)
    ensures
        sorts_before(a, b) == (strength(a) < strength(b)),
{
    let x = a.cards()@;
    let y = b.cards()@;
    assert(x.len() == 5 && y.len() == 5);
    if a.category() == b.category() {
        if x[0] != y[0] {
            witness_or_none(x, y, 0);
        } else if x[1] != y[1] {
            witness_or_none(x, y, 1);
        } else if x[2] != y[2] {
            witness_or_none(x, y, 2);
        } else if x[3] != y[3] {
            witness_or_none(x, y, 3);
        } else if x[4] != y[4] {
            witness_or_none(x, y, 4);
        } else {
            assert(!cards_below(x, y));
        }
    } else {
        assert(a.category().rank() != b.category().rank());
    }
}

/// Where two hands differ first, that position decides which cards come first.
proof fn witness_or_none(x: Seq<Card>, y: Seq<Card>, i: int)
    requires
        0 <= i < x.len(),
        i < y.len(),
        x[i] != y[i],
        forall|j: int| 0 <= j < i ==> x[j] == y[j],
    ensures
        cards_below(x, y) == (x[i].value() < y[i].value()),
        x[i].value() != y[i].value(),
{
    if cards_below(x, y) {
        let k = choose|k: int|
            0 <= k < x.len() && k < y.len() && x[k].value() < y[k].value() && forall|j: int|
                0 <= j < k ==> x[j] == y[j];
        if k > i {
            assert(x[i] == y[i]);
        }
        if k < i {
            assert(x[k] == y[k]);
        }
    }
}

impl Hand {
    /// The strength of the hand: its category and cards as one number.
    pub fn get_strength(&self) -> (n: u64)
        ensures
            n == strength(*self),
    {
        let rank: u64 = match self.get_category() {
            Category::HighCard => 1,
            Category::OnePair => 2,
            Category::TwoPairs => 3,
            Category::ThreeOfAKind => 4,
            Category::FullHouse => 5,
            Category::FourOfAKind => 6,
            Category::FiveOfAKind => 7,
        };
        let cards = self.get_cards();
        let mut n: u64 = rank;
        n = n * 16 + cards[0].face_value();
        n = n * 16 + cards[1].face_value();
        n = n * 16 + cards[2].face_value();
        n = n * 16 + cards[3].face_value();
        n = n * 16 + cards[4].face_value();
        n
    }

    /// Whether this hand comes before `other` in the order of hands.
    pub fn ranks_below(&self, other: &Hand) -> (below: bool)
        ensures
            below == sorts_before(*self, *other),
    {
        proof {
            strength_orders_hands(*self, *other);
        }
        self.get_strength() < other.get_strength()
    }
}

impl PartialOrd for Hand {
    /// The order of two hands: by category first, then by the first card in
    /// which they differ. Hands with the same category and the same cards are
    /// not ordered.
    fn partial_cmp(&self, other: &Self) -> (order: Option<Ordering>) {
        if self.ranks_below(other) {
            Some(Ordering::Less)
        } else if other.ranks_below(self) {
            Some(Ordering::Greater)
        } else {
            None
        }
    }
}

impl vstd::std_specs::cmp::PartialOrdSpecImpl for Hand {
    open spec fn obeys_partial_cmp_spec() -> bool {
        true
    }

    open spec fn partial_cmp_spec(&self, other: &Hand) -> Option<Ordering> {
        if sorts_before(*self, *other) {
            Some(Ordering::Less)
        } else if sorts_before(*other, *self) {
            Some(Ordering::Greater)
        } else {
            None
        }
    }
}

/// The ascending hands `sorted` with `hand` put in its place among them:
/// behind all hands that do not sort after it.
pub open spec fn inserted(sorted: Seq<Hand>, hand: Hand) -> Seq<Hand>
    decreases sorted.len(),
{
    if sorted.len() == 0 {
        seq![hand]
    } else if sorts_before(hand, sorted.last()) {
        inserted(sorted.drop_last(), hand).push(sorted.last())
    } else {
        sorted.push(hand)
    }
}

/// The hands in ascending order. Hands of which neither sorts before the other
/// stay in the order in which they came.
pub open spec fn ranked(hands: Seq<Hand>) -> Seq<Hand>
    decreases hands.len(),
{
    if hands.len() == 0 {
        hands
    } else {
        inserted(ranked(hands.drop_last()), hands.last())
    }
}

/// The sum over the hands of the bet times the position, the first position being 1.
pub open spec fn winnings(hands: Seq<Hand>) -> int
    decreases hands.len(),
{
    if hands.len() == 0 {
        0
    } else {
        winnings(hands.drop_last()) + hands.len() * hands.last().bet()
    }
}

/// Whether no hand sorts before one that stands earlier.
pub open spec fn ascending(hands: Seq<Hand>) -> bool {
    forall|i: int, j: int| 0 <= i < j < hands.len() ==> !sorts_before(hands[j], hands[i])
}

/// Putting a hand into ascending hands keeps them ascending, and adds that hand
/// and no other.
pub proof fn inserted_is_ascending(sorted: Seq<Hand>, hand: Hand)
    requires
        ascending(sorted),
    ensures
        ascending(inserted(sorted, hand)),
        inserted(sorted, hand).len() == sorted.len() + 1,
        inserted(sorted, hand).to_multiset() == sorted.to_multiset().insert(hand),
        forall|k: int|
            0 <= k < inserted(sorted, hand).len() ==> inserted(sorted, hand)[k] == hand || exists|
                i: int,
            |
                0 <= i < sorted.len() && sorted[i] == #[trigger] inserted(sorted, hand)[k],
    decreases sorted.len(),
{
    broadcast use vstd::seq_lib::group_to_multiset_ensures;

    let out = inserted(sorted, hand);
    if sorted.len() == 0 {
        assert(out =~= Seq::<Hand>::empty().push(hand));
        assert(sorted =~= Seq::<Hand>::empty());
    } else if sorts_before(hand, sorted.last()) {
        let front = sorted.drop_last();
        let last = sorted.last();
        inserted_is_ascending(front, hand);
        let inner = inserted(front, hand);
        assert(sorted =~= front.push(last));
        assert(out == inner.push(last));
        assert forall|i: int, j: int| 0 <= i < j < out.len() implies !sorts_before(
            out[j],
            out[i],
        ) by {
            strength_orders_hands(out[j], out[i]);
            if j == out.len() - 1 {
                if inner[i] == hand {
                    strength_orders_hands(hand, last);
                } else {
                    let k = choose|k: int| 0 <= k < front.len() && front[k] == inner[i];
                    assert(!sorts_before(sorted[sorted.len() - 1], sorted[k]));
                }
            } else {
                assert(!sorts_before(inner[j], inner[i]));
            }
        }
        assert forall|k: int| 0 <= k < out.len() implies out[k] == hand || exists|i: int|
            0 <= i < sorted.len() && sorted[i] == #[trigger] out[k] by {
            if k == out.len() - 1 {
                assert(sorted[sorted.len() - 1] == out[k]);
            } else if inner[k] != hand {
                let i = choose|i: int| 0 <= i < front.len() && front[i] == inner[k];
                assert(sorted[i] == out[k]);
            }
        }
        assert(inner.push(last).to_multiset() =~= front.push(last).to_multiset().insert(hand));
    } else {
        assert forall|i: int, j: int| 0 <= i < j < out.len() implies !sorts_before(
            out[j],
            out[i],
        ) by {
            if j == out.len() - 1 {
                strength_orders_hands(hand, sorted.last());
                strength_orders_hands(hand, sorted[i]);
                if i < sorted.len() - 1 {
                    assert(!sorts_before(sorted[sorted.len() - 1], sorted[i]));
                    strength_orders_hands(sorted.last(), sorted[i]);
                }
            } else {
                assert(!sorts_before(sorted[j], sorted[i]));
            }
        }
        assert forall|k: int| 0 <= k < out.len() implies out[k] == hand || exists|i: int|
            0 <= i < sorted.len() && sorted[i] == #[trigger] out[k] by {
            if k < sorted.len() {
                assert(sorted[k] == out[k]);
            }
        }
    }
}

/// The ranked hands are in ascending order, and they are the given hands: each
/// as often as it was given.
pub proof fn ranked_is_ascending(hands: Seq<Hand>)
    ensures
        ascending(ranked(hands)),
        ranked(hands).len() == hands.len(),
        ranked(hands).to_multiset() == hands.to_multiset(),
    decreases hands.len(),
{
    broadcast use vstd::seq_lib::group_to_multiset_ensures;

    if hands.len() > 0 {
        ranked_is_ascending(hands.drop_last());
        inserted_is_ascending(ranked(hands.drop_last()), hands.last());
        assert(hands =~= hands.drop_last().push(hands.last()));
    }
}

/// Puts the hands in ascending order.
pub fn sort_hands(hands: &mut Vec<Hand>)
    ensures
        final(hands)@ == ranked(old(hands)@),
{
    let mut sorted: Vec<Hand> = Vec::new();
    let mut i: usize = 0;
    while i < hands.len()
        invariant
            i <= hands@.len(),
            hands@ == old(hands)@,
            sorted@.len() == i,
            sorted@ == ranked(hands@.take(i as int)),
        decreases hands@.len() - i,
    {
        let hand = hands[i];
        let ghost before = sorted@;
        let mut j: usize = sorted.len();
        proof {
            assert(before.take(j as int) =~= before);
            assert(inserted(before, hand) + before.skip(j as int) =~= inserted(before, hand));
        }
        while j > 0 && hand.ranks_below(&sorted[j - 1])
            invariant
                j <= sorted@.len(),
                sorted@ == before,
                inserted(before, hand) == inserted(before.take(j as int), hand) + before.skip(
                    j as int,
                ),
            decreases j,
        {
            proof {
                assert(before.take(j as int).drop_last() =~= before.take(j - 1));
                assert(inserted(before.take(j - 1), hand).push(before[j - 1]) + before.skip(
                    j as int,
                ) =~= inserted(before.take(j - 1), hand) + before.skip(j - 1));
            }
            j -= 1;
        }
        proof {
            if j > 0 {
                assert(before.take(j as int).push(hand) + before.skip(j as int) =~= before.insert(
                    j as int,
                    hand,
                ));
            } else {
                assert(before.take(0) =~= Seq::<Hand>::empty());
                assert(seq![hand] + before.skip(0) =~= before.insert(0, hand));
            }
            assert(hands@.take(i + 1).drop_last() =~= hands@.take(i as int));
        }
        sorted.insert(j, hand);
        i += 1;
    }
    proof {
        assert(hands@.take(hands@.len() as int) =~= hands@);
    }
    *hands = sorted;
}

/// The winnings of a list of hands: the hands are put in ascending order, and
/// each wins its bet times its position in that order, where the weakest hand
/// has position 1.
pub fn solve(hands: Vec<Hand>) -> (total: u64)
    requires
        winnings(ranked(hands@)) <= u64::MAX,
    ensures
        total == winnings(ranked(hands@)),
{
    match try_solve(hands) {
        Some(total) => total,
        None => vstd::pervasive::unreached(),
    }
}

/// The winnings do not get less when hands are added at the end.
proof fn winnings_grow(hands: Seq<Hand>, n: int)
    requires
        0 <= n <= hands.len(),
    ensures
        0 <= winnings(hands.take(n)) <= winnings(hands),
    decreases hands.len() - n,
{
    if n < hands.len() {
        winnings_grow(hands, n + 1);
        assert(hands.take(n + 1).drop_last() =~= hands.take(n));
        assert(hands.take(n + 1).len() * hands[n].bet() >= 0) by (nonlinear_arith)
            requires
                hands.take(n + 1).len() >= 0,
                hands[n].bet() >= 0,
        ;
        winnings_are_not_negative(hands.take(n));
    } else {
        assert(hands.take(n) =~= hands);
        winnings_are_not_negative(hands);
    }
}

proof fn winnings_are_not_negative(hands: Seq<Hand>)
    ensures
        0 <= winnings(hands),
    decreases hands.len(),
{
    if hands.len() > 0 {
        winnings_are_not_negative(hands.drop_last());
        assert(hands.len() * hands.last().bet() >= 0) by (nonlinear_arith)
            requires
                hands.len() >= 0,
                hands.last().bet() >= 0,
        ;
    }
}

/// The winnings of a list of hands, unless they are above `u64::MAX`.
pub fn try_solve(hands: Vec<Hand>) -> (total: Option<u64>)
    ensures
        total is Some == (winnings(ranked(hands@)) <= u64::MAX),
        total is Some ==> total.unwrap() == winnings(ranked(hands@)),
{
    let mut sorted = hands;
    sort_hands(&mut sorted);
    let mut total: u64 = 0;
    let mut index: usize = 0;
    while index < sorted.len()
        invariant
            index <= sorted@.len(),
            sorted@ == ranked(hands@),
            total == winnings(sorted@.take(index as int)),
        decreases sorted@.len() - index,
    {
        let bet = sorted[index].get_bet();
        let position: u64 = (index + 1) as u64;
        proof {
            assert(sorted@.take(index + 1).drop_last() =~= sorted@.take(index as int));
            winnings_grow(sorted@, index + 1);
        }
        let won = match position.checked_mul(bet) {
            Some(won) => won,
            None => {
                return None;
            },
        };
        total = match total.checked_add(won) {
            Some(sum) => sum,
            None => {
                return None;
            },
        };
        index += 1;
    }
    proof {
        assert(sorted@.take(sorted@.len() as int) =~= sorted@);
    }
    Some(total)
}

/// The number of cards of a rank is the number of times that the rank occurs
/// in the multiset of the cards.
pub proof fn count_is_multiplicity(cards: Seq<Card>, rank: Card)
    ensures
        count_of(cards, rank) == cards.to_multiset().count(rank),
    decreases cards.len(),
{
    broadcast use vstd::seq_lib::group_to_multiset_ensures;

    if cards.len() == 0 {
        assert(!cards.contains(rank));
    } else {
        count_is_multiplicity(cards.drop_last(), rank);
        assert(cards =~= cards.drop_last().push(cards.last()));
    }
}

/// The number of ranks of which there are `k` cards depends only on which
/// cards the hand holds.
proof fn groups_depend_on_cards_held(a: Seq<Card>, b: Seq<Card>, k: nat)
    requires
        a.to_multiset() == b.to_multiset(),
    ensures
        groups_of(a, k) == groups_of(b, k),
        count_of(a, Card::Joker) == count_of(b, Card::Joker),
{
    count_is_multiplicity(a, Card::Joker);
    count_is_multiplicity(b, Card::Joker);
    count_is_multiplicity(a, Card::Two);
    count_is_multiplicity(b, Card::Two);
    count_is_multiplicity(a, Card::Three);
    count_is_multiplicity(b, Card::Three);
    count_is_multiplicity(a, Card::Four);
    count_is_multiplicity(b, Card::Four);
    count_is_multiplicity(a, Card::Five);
    count_is_multiplicity(b, Card::Five);
    count_is_multiplicity(a, Card::Six);
    count_is_multiplicity(b, Card::Six);
    count_is_multiplicity(a, Card::Seven);
    count_is_multiplicity(b, Card::Seven);
    count_is_multiplicity(a, Card::Eight);
    count_is_multiplicity(b, Card::Eight);
    count_is_multiplicity(a, Card::Nine);
    count_is_multiplicity(b, Card::Nine);
    count_is_multiplicity(a, Card::Ten);
    count_is_multiplicity(b, Card::Ten);
    count_is_multiplicity(a, Card::Jack);
    count_is_multiplicity(b, Card::Jack);
    count_is_multiplicity(a, Card::Queen);
    count_is_multiplicity(b, Card::Queen);
    count_is_multiplicity(a, Card::King);
    count_is_multiplicity(b, Card::King);
    count_is_multiplicity(a, Card::Ace);
    count_is_multiplicity(b, Card::Ace);
}

/// The category of a hand depends only on which cards it holds, not on their
/// order: hands with the same cards have the same category. To classify the
/// same cards again gives the same category.
pub proof fn category_depends_on_cards_held(a: Seq<Card>, b: Seq<Card>)
    requires
        a.to_multiset() == b.to_multiset(),
    ensures
        category_of(a) == category_of(b),
{
    groups_depend_on_cards_held(a, b, 2);
    groups_depend_on_cards_held(a, b, 3);
    groups_depend_on_cards_held(a, b, 4);
    groups_depend_on_cards_held(a, b, 5);
}

/// There is no card of a rank that no card has.
proof fn absent_rank_has_no_cards(cards: Seq<Card>, rank: Card)
    requires
        forall|i: int| 0 <= i < cards.len() ==> cards[i] != rank,
    ensures
        count_of(cards, rank) == 0,
    decreases cards.len(),
{
    if cards.len() > 0 {
        absent_rank_has_no_cards(cards.drop_last(), rank);
    }
}

/// Of cards that are jokers or of the rank `held`, there are no groups but of
/// that rank.
proof fn groups_of_one_rank(cards: Seq<Card>, held: Card, k: nat)
    requires
        k > 0,
        held != Card::Joker,
        forall|i: int| 0 <= i < cards.len() ==> cards[i] == Card::Joker || cards[i] == held,
    ensures
        groups_of(cards, k) == is_group(cards, held, k),
        count_of(cards, Card::Joker) + count_of(cards, held) == cards.len(),
{
    counts_add_up(cards);
    if held != Card::Two {
        absent_rank_has_no_cards(cards, Card::Two);
    }
    if held != Card::Three {
        absent_rank_has_no_cards(cards, Card::Three);
    }
    if held != Card::Four {
        absent_rank_has_no_cards(cards, Card::Four);
    }
    if held != Card::Five {
        absent_rank_has_no_cards(cards, Card::Five);
    }
    if held != Card::Six {
        absent_rank_has_no_cards(cards, Card::Six);
    }
    if held != Card::Seven {
        absent_rank_has_no_cards(cards, Card::Seven);
    }
    if held != Card::Eight {
        absent_rank_has_no_cards(cards, Card::Eight);
    }
    if held != Card::Nine {
        absent_rank_has_no_cards(cards, Card::Nine);
    }
    if held != Card::Ten {
        absent_rank_has_no_cards(cards, Card::Ten);
    }
    if held != Card::Jack {
        absent_rank_has_no_cards(cards, Card::Jack);
    }
    if held != Card::Queen {
        absent_rank_has_no_cards(cards, Card::Queen);
    }
    if held != Card::King {
        absent_rank_has_no_cards(cards, Card::King);
    }
    if held != Card::Ace {
        absent_rank_has_no_cards(cards, Card::Ace);
    }
}

/// Five cards that are all alike, but for jokers among them, are five of a
/// kind. So are, in particular, five cards of one rank, and five jokers.
pub proof fn alike_cards_are_five_of_a_kind(cards: Seq<Card>)
    requires
        cards.len() == 5,
        forall|i: int, j: int|
            0 <= i < 5 && 0 <= j < 5 && cards[i] != Card::Joker && cards[j] != Card::Joker
                ==> cards[i] == cards[j],
    ensures
        category_of(cards) == Category::FiveOfAKind,
{
    let held = if exists|i: int| 0 <= i < 5 && cards[i] != Card::Joker {
        let i = choose|i: int| 0 <= i < 5 && cards[i] != Card::Joker;
        cards[i]
    } else {
        Card::Ace
    };
    groups_of_one_rank(cards, held, 2);
    groups_of_one_rank(cards, held, 3);
    groups_of_one_rank(cards, held, 4);
    groups_of_one_rank(cards, held, 5);
}

/// Whether the text names at least five cards and nothing else.
pub open spec fn is_cards_text(s: Seq<char>, wildcard: bool) -> bool {
    s.len() >= 5 && forall|i: int| 0 <= i < s.len() ==> Card::of_char(#[trigger] s[i], wildcard) is Some
}

/// The first five cards that the text names.
pub open spec fn cards_of_text(s: Seq<char>, wildcard: bool) -> Seq<Card> {
    Seq::new(5, |i: int| Card::of_char(s[i], wildcard).unwrap())
}

/// Whether the line shows a hand: its first word names the cards, its second
/// word is the bet, and what follows is ignored.
pub open spec fn is_hand_line(line: Seq<char>, wildcard: bool) -> bool {
    let fields = words(line, ' ');
    fields.len() >= 2 && is_cards_text(fields[0], wildcard) && is_unsigned(fields[1], u64::MAX as nat)
}

/// Whether `hand` is the hand that the line shows.
pub open spec fn is_hand_of_line(hand: Hand, line: Seq<char>, wildcard: bool) -> bool {
    let fields = words(line, ' ');
    &&& hand.cards()@ == cards_of_text(fields[0], wildcard)
    &&& hand.bet() == unsigned_value(fields[1])
    &&& hand.well_formed()
}

/// The first five of the cards that the text names, if it names at least five
/// cards and nothing else.
pub fn parse_cards(names: &[char], wildcard: bool) -> (cards: Option<[Card; 5]>)
    ensures
        cards is Some == is_cards_text(names@, wildcard),
        cards is Some ==> cards.unwrap()@ == cards_of_text(names@, wildcard),
{
    let mut drawn: Vec<Card> = Vec::new();
    let mut i: usize = 0;
    while i < names.len()
        invariant
            i <= names@.len(),
            drawn@.len() == i,
            forall|k: int|
                0 <= k < i ==> Card::of_char(#[trigger] names@[k], wildcard) == Some(drawn@[k]),
        decreases names@.len() - i,
    {
        match Card::from_char(names[i], wildcard) {
            Some(card) => {
                drawn.push(card);
            },
            None => {
                return None;
            },
        }
        i += 1;
    }
    if drawn.len() < 5 {
        return None;
    }
    let cards = [drawn[0], drawn[1], drawn[2], drawn[3], drawn[4]];
    assert(cards@ =~= cards_of_text(names@, wildcard));
    Some(cards)
}

/// The hand that a line of text shows, if it shows one.
pub fn parse_hand(line: &[char], wildcard: bool) -> (hand: Option<Hand>)
    ensures
        hand is Some == is_hand_line(line@, wildcard),
        hand is Some ==> is_hand_of_line(hand.unwrap(), line@, wildcard),
{
    let fields = split_words(line, ' ');
    if fields.len() < 2 {
        return None;
    }
    assert(fields@[0]@ == words(line@, ' ')[0]);
    assert(fields@[1]@ == words(line@, ' ')[1]);
    let cards = match parse_cards(fields[0].as_slice(), wildcard) {
        Some(cards) => cards,
        None => {
            return None;
        },
    };
    let bet = match parse_unsigned(fields[1].as_slice(), u64::MAX) {
        Some(bet) => bet,
        None => {
            return None;
        },
    };
    Some(cards.into_hand(bet))
}

/// Whether every line of the text shows a hand.
pub open spec fn is_hands_text(s: Seq<char>, wildcard: bool) -> bool {
    forall|i: int| 0 <= i < lines(s).len() ==> is_hand_line(#[trigger] lines(s)[i], wildcard)
}

/// The hands that the lines of a text show, if every line shows one.
pub fn parse_hands(input: &str, wildcard: bool) -> (hands: Option<Vec<Hand>>)
    ensures
        hands is Some == is_hands_text(input@, wildcard),
        hands is Some ==> hands.unwrap()@.len() == lines(input@).len(),
        hands is Some ==> forall|i: int|
            0 <= i < lines(input@).len() ==> is_hand_of_line(
                #[trigger] hands.unwrap()@[i],
                lines(input@)[i],
                wildcard,
            ),
{
    let chars = to_chars(input);
    let rows = split_lines(chars.as_slice());
    let ghost text = lines(input@);
    let mut hands: Vec<Hand> = Vec::new();
    let mut i: usize = 0;
    while i < rows.len()
        invariant
            i <= rows@.len(),
            texts(rows@) == text,
            text == lines(input@),
            hands@.len() == i,
            forall|k: int| 0 <= k < i ==> is_hand_line(#[trigger] text[k], wildcard),
            forall|k: int| 0 <= k < i ==> is_hand_of_line(#[trigger] hands@[k], text[k], wildcard),
        decreases rows@.len() - i,
    {
        assert(rows@[i as int]@ == text[i as int]);
        match parse_hand(rows[i].as_slice(), wildcard) {
            Some(hand) => {
                hands.push(hand);
            },
            None => {
                return None;
            },
        }
        i += 1;
    }
    Some(hands)
}

/// Whether `filled` is `cards` with a card of some other rank in the place of
/// each joker.
pub open spec fn fills(filled: Seq<Card>, cards: Seq<Card>) -> bool {
    &&& filled.len() == cards.len()
    &&& forall|i: int|
        0 <= i < cards.len() ==> (#[trigger] filled[i]) != Card::Joker && (cards[i] != Card::Joker
            ==> filled[i] == cards[i])
}

/// A filled hand has no jokers, and of each rank at least the cards that the
/// hand had before.
proof fn filling_adds_cards(filled: Seq<Card>, cards: Seq<Card>, rank: Card)
    requires
        fills(filled, cards),
    ensures
        count_of(filled, Card::Joker) == 0,
        rank != Card::Joker ==> count_of(filled, rank) >= count_of(cards, rank),
    decreases cards.len(),
{
    if cards.len() > 0 {
        assert(fills(filled.drop_last(), cards.drop_last())) by {
            assert forall|i: int| 0 <= i < cards.len() - 1 implies (
            #[trigger] filled.drop_last()[i]) != Card::Joker && (cards.drop_last()[i] != Card::Joker
                ==> filled.drop_last()[i] == cards.drop_last()[i]) by {
                assert(filled[i] != Card::Joker);
            }
        }
        filling_adds_cards(filled.drop_last(), cards.drop_last(), rank);
        assert(filled[filled.len() - 1] != Card::Joker);
    }
}

/// Where there is a group of `k` cards, there is a rank with `k` cards.
proof fn rank_of_group(cards: Seq<Card>, k: nat) -> (rank: Card)
    requires
        groups_of(cards, k) >= 1,
    ensures
        rank != Card::Joker,
        count_of(cards, rank) == k,
{
    if is_group(cards, Card::Two, k) == 1 {
        Card::Two
    } else if is_group(cards, Card::Three, k) == 1 {
        Card::Three
    } else if is_group(cards, Card::Four, k) == 1 {
        Card::Four
    } else if is_group(cards, Card::Five, k) == 1 {
        Card::Five
    } else if is_group(cards, Card::Six, k) == 1 {
        Card::Six
    } else if is_group(cards, Card::Seven, k) == 1 {
        Card::Seven
    } else if is_group(cards, Card::Eight, k) == 1 {
        Card::Eight
    } else if is_group(cards, Card::Nine, k) == 1 {
        Card::Nine
    } else if is_group(cards, Card::Ten, k) == 1 {
        Card::Ten
    } else if is_group(cards, Card::Jack, k) == 1 {
        Card::Jack
    } else if is_group(cards, Card::Queen, k) == 1 {
        Card::Queen
    } else if is_group(cards, Card::King, k) == 1 {
        Card::King
    } else {
        Card::Ace
    }
}

/// Where there are two groups of `k` cards, there is a second rank with `k`
/// cards.
proof fn other_rank_of_group(cards: Seq<Card>, k: nat, first: Card) -> (rank: Card)
    requires
        groups_of(cards, k) >= 2,
    ensures
        rank != Card::Joker,
        rank != first,
        count_of(cards, rank) == k,
{
    if first != Card::Two && is_group(cards, Card::Two, k) == 1 {
        Card::Two
    } else if first != Card::Three && is_group(cards, Card::Three, k) == 1 {
        Card::Three
    } else if first != Card::Four && is_group(cards, Card::Four, k) == 1 {
        Card::Four
    } else if first != Card::Five && is_group(cards, Card::Five, k) == 1 {
        Card::Five
    } else if first != Card::Six && is_group(cards, Card::Six, k) == 1 {
        Card::Six
    } else if first != Card::Seven && is_group(cards, Card::Seven, k) == 1 {
        Card::Seven
    } else if first != Card::Eight && is_group(cards, Card::Eight, k) == 1 {
        Card::Eight
    } else if first != Card::Nine && is_group(cards, Card::Nine, k) == 1 {
        Card::Nine
    } else if first != Card::Ten && is_group(cards, Card::Ten, k) == 1 {
        Card::Ten
    } else if first != Card::Jack && is_group(cards, Card::Jack, k) == 1 {
        Card::Jack
    } else if first != Card::Queen && is_group(cards, Card::Queen, k) == 1 {
        Card::Queen
    } else if first != Card::King && is_group(cards, Card::King, k) == 1 {
        Card::King
    } else {
        Card::Ace
    }
}

/// A rank with `k` cards is a group of `k` cards; two such ranks are two groups.
proof fn group_of_rank(cards: Seq<Card>, a: Card, b: Card, k: nat)
    requires
        a != Card::Joker,
        b != Card::Joker,
    ensures
        count_of(cards, a) == k ==> groups_of(cards, k) >= 1,
        count_of(cards, b) == k ==> groups_of(cards, k) >= 1,
        a != b && count_of(cards, a) == k && count_of(cards, b) == k ==> groups_of(cards, k) >= 2,
{
}

/// The cards that a filling adds to two ranks are no more than the jokers.
proof fn filling_uses_the_jokers(filled: Seq<Card>, cards: Seq<Card>, a: Card, b: Card)
    requires
        fills(filled, cards),
        a != Card::Joker,
        b != Card::Joker,
        a != b,
    ensures
        count_of(filled, a) >= count_of(cards, a),
        count_of(filled, b) >= count_of(cards, b),
        (count_of(filled, a) - count_of(cards, a)) + (count_of(filled, b) - count_of(cards, b))
            <= count_of(cards, Card::Joker),
    decreases cards.len(),
{
    if cards.len() > 0 {
        assert(fills(filled.drop_last(), cards.drop_last())) by {
            assert forall|i: int| 0 <= i < cards.len() - 1 implies (
            #[trigger] filled.drop_last()[i]) != Card::Joker && (cards.drop_last()[i] != Card::Joker
                ==> filled.drop_last()[i] == cards.drop_last()[i]) by {
                assert(filled[i] != Card::Joker);
            }
        }
        filling_uses_the_jokers(filled.drop_last(), cards.drop_last(), a, b);
        assert(filled[filled.len() - 1] != Card::Joker);
    }
}

/// The tables of categories give a hand with jokers no less than any filling
/// of it: `ca` and `cb` are the numbers of cards that the hand has of two
/// ranks, `da` and `db` the numbers that the filling has of them.
proof fn tables_serve_best(
    jokers: nat,
    pairs: nat,
    triples: nat,
    quads: nat,
    quints: nat,
    ca: nat,
    cb: nat,
    da: nat,
    db: nat,
)
    requires
        jokers + 2 * pairs + 3 * triples + 4 * quads + 5 * quints <= 5,
        ca == 2 || cb == 2 ==> pairs >= 1,
        ca == 2 && cb == 2 ==> pairs >= 2,
        ca == 3 || cb == 3 ==> triples >= 1,
        ca == 4 || cb == 4 ==> quads >= 1,
        ca == 5 || cb == 5 ==> quints >= 1,
        da >= ca,
        db >= cb,
        (da - ca) + (db - cb) <= jokers,
        category_by_groups(jokers, pairs, triples, quads, quints) is Some,
    ensures
        da == 5 ==> category_by_groups(jokers, pairs, triples, quads, quints).unwrap().rank() >= 7,
        da == 4 ==> category_by_groups(jokers, pairs, triples, quads, quints).unwrap().rank() >= 6,
        da == 3 && db == 2 ==> category_by_groups(
            jokers,
            pairs,
            triples,
            quads,
            quints,
        ).unwrap().rank() >= 5,
        da == 3 ==> category_by_groups(jokers, pairs, triples, quads, quints).unwrap().rank() >= 4,
        da == 2 && db == 2 ==> category_by_groups(
            jokers,
            pairs,
            triples,
            quads,
            quints,
        ).unwrap().rank() >= 3,
        da == 2 ==> category_by_groups(jokers, pairs, triples, quads, quints).unwrap().rank() >= 2,
{
}

/// No filling of the jokers gives a better category than the hand has: the
/// jokers stand for what serves the hand best.
pub proof fn jokers_serve_the_hand_best(cards: Seq<Card>, filled: Seq<Card>)
    requires
        cards.len() == 5,
        fills(filled, cards),
    ensures
        category_of(filled).rank() <= category_of(cards).rank(),
{
    filling_adds_cards(filled, cards, Card::Two);
    groups_fit_in_hand(cards);
    groups_fit_in_hand(filled);
    five_cards_have_a_category(cards);
    five_cards_have_a_category(filled);
    let jokers = count_of(cards, Card::Joker);
    let pairs = groups_of(cards, 2);
    let triples = groups_of(cards, 3);
    let quads = groups_of(cards, 4);
    let quints = groups_of(cards, 5);
    let found = category_of(filled);
    if found != Category::HighCard {
        let k: nat = match found {
            Category::FiveOfAKind => 5,
            Category::FourOfAKind => 4,
            Category::FullHouse => 3,
            Category::ThreeOfAKind => 3,
            _ => 2,
        };
        let a = rank_of_group(filled, k);
        let b = if found == Category::FullHouse {
            rank_of_group(filled, 2)
        } else if found == Category::TwoPairs {
            other_rank_of_group(filled, 2, a)
        } else if a == Card::Ace {
            Card::King
        } else {
            Card::Ace
        };
        filling_uses_the_jokers(filled, cards, a, b);
        group_of_rank(cards, a, b, 2);
        group_of_rank(cards, a, b, 3);
        group_of_rank(cards, a, b, 4);
        group_of_rank(cards, a, b, 5);
        tables_serve_best(
            jokers,
            pairs,
            triples,
            quads,
            quints,
            count_of(cards, a),
            count_of(cards, b),
            count_of(filled, a),
            count_of(filled, b),
        );
    }
}

/// The cards with a card of the rank `rank` in the place of each joker.
pub open spec fn filled_with(cards: Seq<Card>, rank: Card) -> Seq<Card> {
    Seq::new(
        cards.len(),
        |i: int|
            if cards[i] == Card::Joker {
                rank
            } else {
                cards[i]
            },
    )
}

/// Filling the jokers with one rank adds the jokers to the cards of that rank
/// and leaves the other ranks as they are.
proof fn filling_with_one_rank(cards: Seq<Card>, rank: Card, other: Card)
    requires
        rank != Card::Joker,
        other != Card::Joker,
    ensures
        count_of(filled_with(cards, rank), other) == if other == rank {
            count_of(cards, rank) + count_of(cards, Card::Joker)
        } else {
            count_of(cards, other)
        },
    decreases cards.len(),
{
    if cards.len() > 0 {
        filling_with_one_rank(cards.drop_last(), rank, other);
        assert(filled_with(cards, rank).drop_last() =~= filled_with(cards.drop_last(), rank));
    }
}

/// The groups of a hand of which the jokers were filled with one rank: only
/// the group of that rank has changed.
proof fn groups_after_filling(cards: Seq<Card>, rank: Card, k: nat)
    requires
        rank != Card::Joker,
    ensures
        groups_of(filled_with(cards, rank), k) + is_group(cards, rank, k) == groups_of(cards, k)
            + is_group(filled_with(cards, rank), rank, k),
{
    filling_with_one_rank(cards, rank, Card::Two);
    filling_with_one_rank(cards, rank, Card::Three);
    filling_with_one_rank(cards, rank, Card::Four);
    filling_with_one_rank(cards, rank, Card::Five);
    filling_with_one_rank(cards, rank, Card::Six);
    filling_with_one_rank(cards, rank, Card::Seven);
    filling_with_one_rank(cards, rank, Card::Eight);
    filling_with_one_rank(cards, rank, Card::Nine);
    filling_with_one_rank(cards, rank, Card::Ten);
    filling_with_one_rank(cards, rank, Card::Jack);
    filling_with_one_rank(cards, rank, Card::Queen);
    filling_with_one_rank(cards, rank, Card::King);
    filling_with_one_rank(cards, rank, Card::Ace);
}

/// The rank of which the hand has the most cards, the jokers left aside, and
/// the number of its cards. These are 0 cards of the ace where the hand has
/// nothing but jokers.
proof fn best_rank(cards: Seq<Card>) -> (best: (Card, nat))
    requires
        cards.len() == 5,
    ensures
        best.0 != Card::Joker,
        count_of(cards, best.0) == best.1,
        best.1 <= 5,
        groups_of(cards, 5) >= 1 ==> best.1 == 5,
        groups_of(cards, 5) == 0 && groups_of(cards, 4) >= 1 ==> best.1 == 4,
        groups_of(cards, 5) == 0 && groups_of(cards, 4) == 0 && groups_of(cards, 3) >= 1 ==> best.1
            == 3,
        groups_of(cards, 5) == 0 && groups_of(cards, 4) == 0 && groups_of(cards, 3) == 0
            && groups_of(cards, 2) >= 1 ==> best.1 == 2,
        groups_of(cards, 5) == 0 && groups_of(cards, 4) == 0 && groups_of(cards, 3) == 0
            && groups_of(cards, 2) == 0 ==> best.1 == 5 - count_of(cards, Card::Joker) || best.1
            == 1,
        groups_of(cards, 5) == 0 && groups_of(cards, 4) == 0 && groups_of(cards, 3) == 0
            && groups_of(cards, 2) == 0 && count_of(cards, Card::Joker) < 5 ==> best.1 == 1,
{
    counts_add_up(cards);
    if groups_of(cards, 5) >= 1 {
        (rank_of_group(cards, 5), 5)
    } else if groups_of(cards, 4) >= 1 {
        (rank_of_group(cards, 4), 4)
    } else if groups_of(cards, 3) >= 1 {
        (rank_of_group(cards, 3), 3)
    } else if groups_of(cards, 2) >= 1 {
        (rank_of_group(cards, 2), 2)
    } else if exists|i: int| 0 <= i < 5 && cards[i] != Card::Joker {
        let i = choose|i: int| 0 <= i < 5 && cards[i] != Card::Joker;
        let rank = cards[i];
        card_is_counted(cards, i);
        group_of_rank(cards, rank, rank, 2);
        group_of_rank(cards, rank, rank, 3);
        group_of_rank(cards, rank, rank, 4);
        group_of_rank(cards, rank, rank, 5);
        (rank, 1)
    } else {
        absent_rank_has_no_cards(cards, Card::Ace);
        all_of_one_rank(cards, Card::Joker);
        (Card::Ace, 0)
    }
}

/// A card of the hand is counted among the cards of its rank, and no rank has
/// more cards than the hand.
proof fn card_is_counted(cards: Seq<Card>, i: int)
    requires
        0 <= i < cards.len(),
    ensures
        1 <= count_of(cards, cards[i]) <= cards.len(),
    decreases cards.len(),
{
    count_is_small(cards, cards[i]);
    if i < cards.len() - 1 {
        card_is_counted(cards.drop_last(), i);
    }
}

/// No rank has more cards than the hand.
proof fn count_is_small(cards: Seq<Card>, rank: Card)
    ensures
        count_of(cards, rank) <= cards.len(),
    decreases cards.len(),
{
    if cards.len() > 0 {
        count_is_small(cards.drop_last(), rank);
    }
}

/// The tables of categories give a hand with jokers what the plain table gives
/// the hand with its jokers added to its largest group of `most` cards.
proof fn tables_reach_best(
    jokers: nat,
    pairs: nat,
    triples: nat,
    quads: nat,
    quints: nat,
    most: nat,
)
    requires
        jokers + 2 * pairs + 3 * triples + 4 * quads + 5 * quints + one_at(most, 1) <= 5,
        most <= 5,
        quints >= 1 ==> most == 5,
        quints == 0 && quads >= 1 ==> most == 4,
        quints == 0 && quads == 0 && triples >= 1 ==> most == 3,
        quints == 0 && quads == 0 && triples == 0 && pairs >= 1 ==> most == 2,
        quints == 0 && quads == 0 && triples == 0 && pairs == 0 ==> most == 1 || (most == 0
            && jokers == 5),
        category_by_groups(jokers, pairs, triples, quads, quints) is Some,
    ensures
        plain_category(
            (pairs + one_at(most + jokers, 2) - one_at(most, 2)) as nat,
            (triples + one_at(most + jokers, 3) - one_at(most, 3)) as nat,
            (quads + one_at(most + jokers, 4) - one_at(most, 4)) as nat,
            (quints + one_at(most + jokers, 5) - one_at(most, 5)) as nat,
        ) == category_by_groups(jokers, pairs, triples, quads, quints),
{
}

/// 1 if the count is `k`, else 0.
pub open spec fn one_at(count: nat, k: nat) -> int {
    if count == k {
        1
    } else {
        0
    }
}

/// The jokers, the cards in groups and a single card of one further rank
/// cannot be more cards than the hand has.
proof fn lone_card_takes_its_place(cards: Seq<Card>, rank: Card)
    requires
        rank != Card::Joker,
    ensures
        count_of(cards, Card::Joker) + 2 * groups_of(cards, 2) + 3 * groups_of(cards, 3) + 4
            * groups_of(cards, 4) + 5 * groups_of(cards, 5) + one_at(count_of(cards, rank), 1)
            <= cards.len(),
{
    groups_fit_in_hand(cards);
    group_of_rank(cards, rank, rank, 1);
}

/// The number of groups of `k` cards after the jokers were added to the cards
/// of one rank.
proof fn groups_of_the_filling(cards: Seq<Card>, rank: Card, k: nat)
    requires
        rank != Card::Joker,
    ensures
        groups_of(filled_with(cards, rank), k) == groups_of(cards, k) + one_at(
            count_of(cards, rank) + count_of(cards, Card::Joker),
            k,
        ) - one_at(count_of(cards, rank), k),
{
    groups_after_filling(cards, rank, k);
    filling_with_one_rank(cards, rank, rank);
}

/// The category of a hand without jokers is what the plain table gives.
proof fn plain_hand_has_plain_category(cards: Seq<Card>)
    requires
        count_of(cards, Card::Joker) == 0,
    ensures
        Some(category_of(cards)) == plain_category(
            groups_of(cards, 2),
            groups_of(cards, 3),
            groups_of(cards, 4),
            groups_of(cards, 5),
        ) || plain_category(
            groups_of(cards, 2),
            groups_of(cards, 3),
            groups_of(cards, 4),
            groups_of(cards, 5),
        ) is None,
{
}

/// Some filling of the jokers gives the category that the hand has: the one
/// that adds all jokers to the rank of which the hand has most cards.
pub proof fn some_filling_serves_best(cards: Seq<Card>) -> (filled: Seq<Card>)
    requires
        cards.len() == 5,
    ensures
        fills(filled, cards),
        category_of(filled) == category_of(cards),
{
    let (rank, most) = best_rank(cards);
    let filled = filled_with(cards, rank);
    assert(fills(filled, cards));
    filling_adds_cards(filled, cards, rank);
    plain_hand_has_plain_category(filled);
    groups_fit_in_hand(cards);
    five_cards_have_a_category(cards);
    lone_card_takes_its_place(cards, rank);
    groups_of_the_filling(cards, rank, 2);
    groups_of_the_filling(cards, rank, 3);
    groups_of_the_filling(cards, rank, 4);
    groups_of_the_filling(cards, rank, 5);
    tables_reach_best(
        count_of(cards, Card::Joker),
        groups_of(cards, 2),
        groups_of(cards, 3),
        groups_of(cards, 4),
        groups_of(cards, 5),
        most,
    );
    filled
}

/// Cards that are all of one rank are as many cards of that rank.
proof fn all_of_one_rank(cards: Seq<Card>, rank: Card)
    requires
        forall|i: int| 0 <= i < cards.len() ==> cards[i] == rank,
    ensures
        count_of(cards, rank) == cards.len(),
    decreases cards.len(),
{
    if cards.len() > 0 {
        all_of_one_rank(cards.drop_last(), rank);
    }
}

} // verus!
