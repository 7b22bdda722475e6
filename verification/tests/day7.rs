use advent::day7::{
    classify, parse_hand, parse_hands, solve, sort_hands, try_solve, Card, Category, Hand,
    IntoHand,
};
use std::cmp::Ordering;

const INPUT_TEST: &str = "32T3K 765\nT55J5 684\nKK677 28\nKTJJT 220\nQQQJA 483\n";

#[test]
fn day7_test_part1() {
    let input = INPUT_TEST;

    let hands = input
        .lines()
        .map(|line| {
            let cards = line
                .split(" ")
                .filter(|s| !s.is_empty())
                .collect::<Vec<_>>()
                .get(0)
                .unwrap()
                .chars()
                .map(|c| Card::from_char(c, false).unwrap())
                .collect::<Vec<_>>();

            let bet = line
                .split(" ")
                .filter(|s| !s.is_empty())
                .collect::<Vec<_>>()
                .get(1)
                .unwrap()
                .parse::<u64>()
                .unwrap();

            let cards = [
                cards[0].clone(),
                cards[1].clone(),
                cards[2].clone(),
                cards[3].clone(),
                cards[4].clone(),
            ];

            cards.into_hand(bet)
        })
        .collect::<Vec<_>>();

    let result = solve(hands);
    assert_eq!(result, 6440);
}

#[test]
fn day7_test_part2() {
    let input = INPUT_TEST;

    let hands = input
        .lines()
        .map(|line| {
            let cards = line
                .split(" ")
                .filter(|s| !s.is_empty())
                .collect::<Vec<_>>()
                .get(0)
                .unwrap()
                .chars()
                .map(|c| Card::from(c))
                .collect::<Vec<_>>();

            let bet = line
                .split(" ")
                .filter(|s| !s.is_empty())
                .collect::<Vec<_>>()
                .get(1)
                .unwrap()
                .parse::<u64>()
                .unwrap();

            let cards = [
                cards[0].clone(),
                cards[1].clone(),
                cards[2].clone(),
                cards[3].clone(),
                cards[4].clone(),
            ];

            cards.into_hand(bet)
        })
        .collect::<Vec<_>>();

    let result = solve(hands);

    assert_eq!(result, 5905);
}

#[test]
fn it_correctly_uses_5_jokers() {
    let cards = [
        Card::Joker,
        Card::Joker,
        Card::Joker,
        Card::Joker,
        Card::Joker,
    ];

    let hand = cards.clone().into_hand(1);

    assert_eq!(hand, Hand::FiveOfAKind(cards, 1));
}

#[test]
fn it_correctly_uses_4_jokers() {
    let cards = [
        Card::Joker,
        Card::Joker,
        Card::Joker,
        Card::Joker,
        Card::Two,
    ];

    let hand = cards.clone().into_hand(1);

    assert_eq!(hand, Hand::FiveOfAKind(cards, 1));
}

#[test]
fn it_correctly_uses_3_jokers_with_one_pair() {
    let cards = [
        Card::Joker,
        Card::Joker,
        Card::Joker,
        Card::Two,
        Card::Two,
    ];

    let hand = cards.clone().into_hand(1);

    assert_eq!(hand, Hand::FiveOfAKind(cards, 1));
}

#[test]
fn it_correctly_uses_3_jokers_with_no_pair() {
    let cards = [
        Card::Joker,
        Card::Joker,
        Card::Joker,
        Card::Two,
        Card::Three,
    ];

    let hand = cards.clone().into_hand(1);

    assert_eq!(hand, Hand::FourOfAKind(cards, 1));
}

#[test]
fn it_correctly_uses_2_jokers_with_one_pair() {
    let cards = [
        Card::Joker,
        Card::Joker,
        Card::Two,
        Card::Two,
        Card::Three,
    ];

    let hand = cards.clone().into_hand(1);

    assert_eq!(hand, Hand::FourOfAKind(cards, 1));
}

#[test]
fn it_correctly_uses_2_jokers_with_one_triple() {
    let cards = [
        Card::Joker,
        Card::Joker,
        Card::Two,
        Card::Two,
        Card::Two,
    ];

    let hand = cards.clone().into_hand(1);

    assert_eq!(hand, Hand::FiveOfAKind(cards, 1));
}

#[test]
fn it_correctly_uses_2_jokers_with_no_pair() {
    let cards = [
        Card::Joker,
        Card::Joker,
        Card::Two,
        Card::Three,
        Card::Four,
    ];

    let hand = cards.clone().into_hand(1);

    assert_eq!(hand, Hand::ThreeOfAKind(cards, 1));
}

#[test]
fn it_correctly_uses_1_joker_with_one_pair() {
    let cards = [
        Card::Joker,
        Card::Two,
        Card::Two,
        Card::Three,
        Card::Four,
    ];

    let hand = cards.clone().into_hand(1);

    assert_eq!(hand, Hand::ThreeOfAKind(cards, 1));
}

#[test]
fn it_correctly_uses_1_joker_with_two_pairs() {
    let cards = [
        Card::Joker,
        Card::Two,
        Card::Two,
        Card::Three,
        Card::Three,
    ];

    let hand = cards.clone().into_hand(1);

    assert_eq!(hand, Hand::FullHouse(cards, 1));
}

#[test]
fn it_correctly_uses_1_joker_with_one_triple() {
    let cards = [
        Card::Joker,
        Card::Two,
        Card::Two,
        Card::Two,
        Card::Three,
    ];

    let hand = cards.clone().into_hand(1);

    assert_eq!(hand, Hand::FourOfAKind(cards, 1));
}

#[test]
fn it_correctly_uses_1_joker_with_one_quad() {
    let cards = [
        Card::Joker,
        Card::Two,
        Card::Two,
        Card::Two,
        Card::Two,
    ];

    let hand = cards.clone().into_hand(1);

    assert_eq!(hand, Hand::FiveOfAKind(cards, 1));
}

#[test]
fn it_correctly_uses_1_joker_with_no_pair() {
    let cards = [
        Card::Joker,
        Card::Two,
        Card::Three,
        Card::Four,
        Card::Five,
    ];

    let hand = cards.clone().into_hand(1);

    assert_eq!(hand, Hand::OnePair(cards, 1));
}

fn cards_of(names: &str, wildcard: bool) -> [Card; 5] {
    let cards = names
        .chars()
        .map(|c| Card::from_char(c, wildcard).unwrap())
        .collect::<Vec<_>>();
    [cards[0], cards[1], cards[2], cards[3], cards[4]]
}

#[test]
fn categories_without_jokers() {
    assert_eq!(classify(&cards_of("23456", false)), Category::HighCard);
    assert_eq!(classify(&cards_of("A23A4", false)), Category::OnePair);
    assert_eq!(classify(&cards_of("23432", false)), Category::TwoPairs);
    assert_eq!(classify(&cards_of("TTT98", false)), Category::ThreeOfAKind);
    assert_eq!(classify(&cards_of("23332", false)), Category::FullHouse);
    assert_eq!(classify(&cards_of("AA8AA", false)), Category::FourOfAKind);
    assert_eq!(classify(&cards_of("AAAAA", false)), Category::FiveOfAKind);
    assert_eq!(classify(&cards_of("JJJJJ", false)), Category::FiveOfAKind);
    assert_eq!(classify(&cards_of("KTJJT", false)), Category::TwoPairs);
}

#[test]
fn five_alike_are_five_of_a_kind_with_and_without_jokers() {
    for name in "23456789TJQKA".chars() {
        let names = name.to_string().repeat(5);
        assert_eq!(classify(&cards_of(&names, false)), Category::FiveOfAKind);
        assert_eq!(classify(&cards_of(&names, true)), Category::FiveOfAKind);
        for jokers in 1..5 {
            let mixed = "J".repeat(jokers) + &name.to_string().repeat(5 - jokers);
            assert_eq!(classify(&cards_of(&mixed, true)), Category::FiveOfAKind);
        }
    }
}

#[test]
fn category_does_not_depend_on_the_order_of_the_cards() {
    let orders = ["KTJJT", "TJKJT", "JJTTK", "TKTJJ"];
    for names in orders {
        assert_eq!(classify(&cards_of(names, false)), Category::TwoPairs);
        assert_eq!(classify(&cards_of(names, true)), Category::FourOfAKind);
    }
    let cards = cards_of("QQQJA", true);
    assert_eq!(classify(&cards), classify(&cards));
}

#[test]
fn j_is_the_jack_without_the_wildcard_rule() {
    assert_eq!(Card::from_char('J', false), Some(Card::Jack));
    assert_eq!(Card::from_char('J', true), Some(Card::Joker));
    assert_eq!(Card::from('J'), Card::Joker);
    assert_eq!(Card::from_char('1', true), None);
    assert_eq!(Card::from_char('x', false), None);
}

#[test]
fn face_values() {
    let cards = cards_of("23456", true)
        .into_iter()
        .chain(cards_of("789TQ", true))
        .chain(cards_of("KAJJJ", true))
        .take(13)
        .collect::<Vec<_>>();
    let values = cards.iter().map(|c| u64::from(c)).collect::<Vec<_>>();
    assert_eq!(values, vec![2, 3, 4, 5, 6, 7, 8, 9, 10, 12, 13, 14, 1]);
    assert_eq!(Card::Jack.face_value(), 11);
    assert_eq!(u64::from(&Card::Jack), 11);
}

#[test]
fn hands_are_ordered_by_category_then_by_first_different_card() {
    let weak = cards_of("2AAAA", false).into_hand(1);
    let strong = cards_of("33332", false).into_hand(1);
    assert_eq!(weak.partial_cmp(&strong), Some(Ordering::Less));
    assert_eq!(strong.partial_cmp(&weak), Some(Ordering::Greater));
    assert!(weak < strong);
    assert!(weak.ranks_below(&strong));
    assert!(!strong.ranks_below(&weak));

    let pair = cards_of("AAKQT", false).into_hand(1);
    let two_pairs = cards_of("22334", false).into_hand(1);
    assert_eq!(pair.partial_cmp(&two_pairs), Some(Ordering::Less));

    let same = cards_of("2AAAA", false).into_hand(7);
    assert_eq!(weak.partial_cmp(&same), None);
}

#[test]
fn joker_is_the_lowest_card_in_a_tie() {
    let with_joker = cards_of("JKKK2", true).into_hand(1);
    let without = cards_of("QQQQ2", true).into_hand(1);
    assert_eq!(with_joker, Hand::FourOfAKind(cards_of("JKKK2", true), 1));
    assert_eq!(with_joker.partial_cmp(&without), Some(Ordering::Less));
    assert_eq!(with_joker.get_strength(), 6 * 1048576 + 1 * 65536 + 13 * 4096 + 13 * 256 + 13 * 16 + 2);
}

#[test]
fn sorting_keeps_equal_hands_in_their_order() {
    let mut hands = vec![
        cards_of("QQQJA", false).into_hand(1),
        cards_of("32T3K", false).into_hand(2),
        cards_of("QQQJA", false).into_hand(3),
        cards_of("32T3K", false).into_hand(4),
        cards_of("AAAAA", false).into_hand(5),
    ];
    sort_hands(&mut hands);
    let bets = hands.iter().map(|h| h.get_bet()).collect::<Vec<_>>();
    assert_eq!(bets, vec![2, 4, 1, 3, 5]);
    // 1*2 + 2*4 + 3*1 + 4*3 + 5*5
    assert_eq!(solve(hands), 50);
}

#[test]
fn winnings_of_no_hands_are_zero() {
    assert_eq!(solve(Vec::new()), 0);
    assert_eq!(try_solve(Vec::new()), Some(0));
}

#[test]
fn winnings_above_the_limit_are_refused() {
    let hands = vec![
        cards_of("23456", false).into_hand(u64::MAX),
        cards_of("23457", false).into_hand(1),
    ];
    assert_eq!(try_solve(hands), None);
    let hands = vec![
        cards_of("23456", false).into_hand(u64::MAX - 2),
        cards_of("23457", false).into_hand(1),
    ];
    assert_eq!(try_solve(hands), Some(u64::MAX));
}

#[test]
fn parsing_the_text_gives_the_hands() {
    let hands = parse_hands(INPUT_TEST, true).unwrap();
    assert_eq!(hands.len(), 5);
    assert_eq!(hands[0], Hand::OnePair(cards_of("32T3K", true), 765));
    assert_eq!(hands[1], Hand::FourOfAKind(cards_of("T55J5", true), 684));
    assert_eq!(hands[2], Hand::TwoPairs(cards_of("KK677", true), 28));
    assert_eq!(hands[3], Hand::FourOfAKind(cards_of("KTJJT", true), 220));
    assert_eq!(hands[4], Hand::FourOfAKind(cards_of("QQQJA", true), 483));
    assert_eq!(solve(hands), 5905);
    assert_eq!(solve(parse_hands(INPUT_TEST, false).unwrap()), 6440);
}

#[test]
fn lines_that_show_no_hand_are_refused() {
    let line = |s: &str| s.chars().collect::<Vec<_>>();
    assert!(parse_hand(&line("32T3K 765"), true).is_some());
    assert!(parse_hand(&line("  32T3K   765  extra"), true).is_some());
    assert_eq!(
        parse_hand(&line("32T3KAA +5"), true),
        Some(Hand::OnePair(cards_of("32T3K", true), 5))
    );
    assert!(parse_hand(&line("32T3 765"), true).is_none());
    assert!(parse_hand(&line("32T3X 765"), true).is_none());
    assert!(parse_hand(&line("32T3K"), true).is_none());
    assert!(parse_hand(&line("32T3K -1"), true).is_none());
    assert!(parse_hand(&line("32T3K 18446744073709551616"), true).is_none());
    assert!(parse_hand(&line("32T3K 18446744073709551615"), true).is_some());
    assert!(parse_hand(&line(""), true).is_none());
    assert!(parse_hands("32T3K 765\n\nT55J5 684", true).is_none());
}

fn fillings(cards: [Card; 5]) -> Vec<[Card; 5]> {
    let ranks = cards_of("23456", false)
        .into_iter()
        .chain(cards_of("789TJ", false))
        .chain(cards_of("QKAAA", false))
        .take(13)
        .collect::<Vec<_>>();
    let mut all = vec![cards];
    for place in 0..5 {
        if cards[place] == Card::Joker {
            let mut next = Vec::new();
            for filled in &all {
                for rank in &ranks {
                    let mut one = *filled;
                    one[place] = *rank;
                    next.push(one);
                }
            }
            all = next;
        }
    }
    all
}

#[test]
fn jokers_stand_for_what_serves_the_hand_best() {
    let hands = [
        "J2345", "J2245", "J2255", "J2225", "J2222", "JJ234", "JJ224", "JJ222", "JJJ23", "JJJ22",
        "JJJJ2", "23456", "22456", "KTJJT", "QJJQ2", "T55J5", "2J3J4", "AJAJA",
    ];
    for names in hands {
        let cards = cards_of(names, true);
        let best = fillings(cards)
            .iter()
            .map(|filled| classify(filled))
            .max()
            .unwrap();
        assert_eq!(classify(&cards), best, "{}", names);
    }
    assert_eq!(fillings(cards_of("JJJ23", true)).len(), 2197);
}
