use advent::day2::{
    parse_game, parse_games, parse_set, solve, solve_part2, try_solve, try_solve_part2, Game,
    GameSet,
};

const INPUT_TEST: &str = "Game 1: 3 blue, 4 red; 1 red, 2 green, 6 blue; 2 green\nGame 2: 1 blue, 2 green; 3 green, 4 blue, 1 red; 1 green, 1 blue\nGame 3: 8 green, 6 blue, 20 red; 5 blue, 4 red, 13 green; 5 green, 1 red\nGame 4: 1 green, 3 red, 6 blue; 3 green, 6 red; 3 green, 15 blue, 14 red\nGame 5: 6 red, 1 blue, 3 green; 2 blue, 1 red, 2 green";

#[test]
fn day2_it_works() {
    let input = INPUT_TEST;
    let result = solve(input);
    assert_eq!(result, 8);
}

#[test]
fn it_works_part2() {
    let input = INPUT_TEST;
    let result = solve_part2(input);
    assert_eq!(result, 2286);
}

fn chars(s: &str) -> Vec<char> {
    s.chars().collect()
}

#[test]
fn a_set_is_read_colour_by_colour() {
    assert_eq!(
        parse_set(&chars(" 3 blue, 4 red")),
        Some(GameSet::new(Some(4), Some(3), None))
    );
    assert_eq!(
        parse_set(&chars("1 red, 2 green, 6 blue")),
        Some(GameSet::new(Some(1), Some(6), Some(2)))
    );
    // the first count of a colour holds
    assert_eq!(
        parse_set(&chars("1 red, 5 red")),
        Some(GameSet::new(Some(1), None, None))
    );
    // a count without a colour is its own colour
    assert_eq!(parse_set(&chars("7")), Some(GameSet::new(None, None, None)));
    assert_eq!(parse_set(&chars("red")), None);
    assert_eq!(parse_set(&chars("3 blue,")), None);
    assert_eq!(parse_set(&chars("")), None);
}

#[test]
fn a_game_is_read_with_its_number() {
    let game = parse_game(&chars("Game 17: 3 blue, 4 red; 2 green")).unwrap();
    assert_eq!(game.id, 17);
    assert_eq!(
        game.sets,
        vec![
            GameSet::new(Some(4), Some(3), None),
            GameSet::new(None, None, Some(2))
        ]
    );
    assert!(parse_game(&chars("Game  17: 3 blue")).is_none());
    assert!(parse_game(&chars("Game 17")).is_none());
    assert!(parse_game(&chars("Game x: 3 blue")).is_none());
    assert!(parse_game(&chars("")).is_none());
    assert!(parse_games("Game 1: 3 blue\n").is_none());
    assert_eq!(parse_games("Game 1: 3 blue\nGame 2: 1 red").unwrap().len(), 2);
}

#[test]
fn a_set_is_valid_within_the_supply() {
    let set = GameSet::new(Some(12), Some(14), Some(13));
    assert!(set.is_valid(12, 13, 14));
    assert!(!set.is_valid(11, 13, 14));
    assert!(!set.is_valid(12, 12, 14));
    assert!(!set.is_valid(12, 13, 13));
    assert!(GameSet::new(None, None, None).is_valid(0, 0, 0));
}

#[test]
fn a_game_needs_the_greatest_count_of_each_colour() {
    let game = Game {
        id: 1,
        sets: vec![
            GameSet::new(Some(4), Some(3), None),
            GameSet::new(Some(1), Some(6), Some(2)),
            GameSet::new(None, None, Some(2)),
        ],
    };
    assert_eq!(game.min_red(), 4);
    assert_eq!(game.min_blue(), 6);
    assert_eq!(game.min_green(), 2);
    assert_eq!(game.game_power(), 48);
    assert!(game.is_possible(4, 2, 6));
    assert!(!game.is_possible(3, 2, 6));
}

#[test]
fn a_colour_that_was_never_shown_counts_as_one() {
    let game = Game {
        id: 1,
        sets: vec![GameSet::new(Some(5), None, None)],
    };
    assert_eq!(game.min_blue(), 1);
    assert_eq!(game.min_green(), 1);
    assert_eq!(game.game_power(), 5);
    let game = Game {
        id: 1,
        sets: vec![GameSet::new(Some(5), Some(0), None)],
    };
    assert_eq!(game.min_blue(), 0);
    assert_eq!(game.game_power(), 0);
}

#[test]
fn sums_above_the_limit_are_refused() {
    assert_eq!(try_solve(INPUT_TEST), Some(8));
    assert_eq!(try_solve_part2(INPUT_TEST), Some(2286));
    assert_eq!(try_solve("no game"), None);
    let big = "Game 1: 4294967296 red, 4294967296 blue";
    assert_eq!(try_solve_part2(big), None);
    assert_eq!(
        Game {
            id: 1,
            sets: vec![GameSet::new(Some(4294967296), Some(4294967296), Some(0))]
        }
        .checked_power(),
        Some(0)
    );
    let ids = "Game 18446744073709551615: 1 red\nGame 1: 1 red";
    assert_eq!(try_solve(ids), None);
    assert_eq!(try_solve("Game 18446744073709551615: 1 red\nGame 1: 13 red"), Some(u64::MAX));
}
