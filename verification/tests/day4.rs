use advent::day4::{
    card_points, count_matches, parse_card, parse_game, process_card, solve_part1, solve_part2,
    try_solve_part1, Game, IntoGame,
};

const INPUT_TEST: &str = "Card 1: 41 48 83 86 17 | 83 86  6 31 17  9 48 53\nCard 2: 13 32 20 16 61 | 61 30 68 82 17 32 24 19\nCard 3:  1 21 53 59 44 | 69 82 63 72 16 21 14  1\nCard 4: 41 92 73 84 69 | 59 84 76 51 58  5 54 83\nCard 5: 87 83 26 28 32 | 88 30 70 12 93 22 82 36\nCard 6: 31 18 13 56 72 | 74 77 10 23 35 67 36 11\n";

#[test]
fn it_parses_correctly_to_game() {
    let input = INPUT_TEST;
    // remove first 8 chars from line and split to lines
    let input = input
        .lines()
        .map(|line| line.chars().skip(7).collect::<String>())
        .collect::<Vec<_>>()
        .join("\n");

    let game = input.into_game();

    assert_eq!(game.winners.len(), 6);
    assert_eq!(game.own.len(), 6);

    assert_eq!(game.winners.first().unwrap().len(), 5);
    assert_eq!(game.own.first().unwrap().len(), 8);
}

#[test]
fn it_works_correctly() {
    let input = INPUT_TEST;

    // remove first 8 chars from line and split to lines
    let input = input
        .lines()
        .map(|line| line.chars().skip(7).collect::<String>())
        .collect::<Vec<_>>()
        .join("\n");

    let game = input.into_game();

    let mut points = 0;

    for (card_index, card) in game.own.iter().enumerate() {
        let count_winning_numbers = game
            .winners
            .get(card_index)
            .unwrap()
            .iter()
            .filter(|num| card.contains(num))
            .count();

        let mut card_points = 0;

        if count_winning_numbers > 0 {
            card_points += 1;
        }

        for _ in 1..count_winning_numbers {
            card_points *= 2;
        }

        points += card_points;
    }

    assert_eq!(points, 13);
}

#[test]
fn it_works_correctly_again() {
    let input = INPUT_TEST;

    // remove first 8 chars from line and split to lines
    let input = input
        .lines()
        .map(|line| line.chars().skip(7).collect::<String>())
        .collect::<Vec<_>>()
        .join("\n");

    let game = input.into_game();

    let mut winning_cards = Vec::new();

    for (card_index, _) in game.own.iter().enumerate() {
        process_card(&game, card_index, &mut winning_cards);
    }

    assert_eq!(winning_cards.len(), 30);
}

#[test]
fn points_and_cards_of_the_game() {
    // the number of the card is no winning number: its word ends with a colon
    let game = INPUT_TEST.into_game();
    assert_eq!(game.winners[0], vec![41, 48, 83, 86, 17]);
    assert_eq!(game.own[0], vec![83, 86, 6, 31, 17, 9, 48, 53]);
    assert_eq!(solve_part1(&game), 13);
    assert_eq!(solve_part2(&game), 30);
    assert_eq!(try_solve_part1(&game), Some(13));
}

#[test]
fn points_double_with_each_match() {
    assert_eq!(card_points(0), Some(0));
    assert_eq!(card_points(1), Some(1));
    assert_eq!(card_points(2), Some(2));
    assert_eq!(card_points(4), Some(8));
    assert_eq!(card_points(64), Some(1 << 63));
    assert_eq!(card_points(65), None);
    assert_eq!(count_matches(&vec![41, 48, 83, 86, 17], &vec![83, 86, 6, 31, 17, 9, 48, 53]), 4);
    assert_eq!(count_matches(&vec![5, 5, 6], &vec![5]), 2);
    assert_eq!(count_matches(&vec![], &vec![5]), 0);
}

#[test]
fn a_card_brings_itself_and_the_cards_it_wins() {
    let game = Game {
        winners: vec![vec![1, 2], vec![3], vec![9], vec![9]],
        own: vec![vec![1, 2], vec![3], vec![4], vec![5]],
    };
    let mut won = Vec::new();
    process_card(&game, 3, &mut won);
    assert_eq!(won, vec![vec![5]]);
    process_card(&game, 1, &mut won);
    assert_eq!(won, vec![vec![5], vec![3], vec![4]]);
    let mut won = Vec::new();
    process_card(&game, 0, &mut won);
    // card 0 wins cards 1 and 2; card 1 wins card 2
    assert_eq!(won, vec![vec![1, 2], vec![3], vec![4], vec![4]]);
    process_card(&game, 4, &mut won);
    assert_eq!(won.len(), 4);
    assert_eq!(solve_part2(&game), 4 + 2 + 1 + 1);
}

#[test]
fn lines_that_show_no_card_are_refused() {
    let line = |s: &str| s.chars().collect::<Vec<_>>();
    assert_eq!(
        parse_card(&line(" 41 x +5 48 | 1 +2  3")),
        Some((vec![41, 48], vec![1, 2, 3]))
    );
    assert_eq!(parse_card(&line("41 48")), None);
    assert_eq!(parse_card(&line("41 48 | 1 x")), None);
    assert_eq!(parse_card(&line("65536 | 1")), None);
    assert_eq!(parse_card(&line("65535 | 65536")), None);
    assert_eq!(parse_card(&line("|")), Some((vec![], vec![])));
    assert!(parse_game("1 | 1\n\n2 | 2\n").is_some());
    assert_eq!(parse_game("1 | 1\n\n2 | 2\n").unwrap().own.len(), 2);
    assert!(parse_game("1 | 1\n2\n").is_none());
}
