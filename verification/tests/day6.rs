use advent::day6::{
    parse_race, parse_races, solve_part1, solve_part2, try_solve_part1, try_solve_part2, Race,
};

const INPUT_TEST: &str = "Time:      7  15   30\nDistance:  9  40  200\n";

#[test]
fn day6_test_part1() {
    let input = INPUT_TEST;

    let times = input.lines().collect::<Vec<_>>().get(0).unwrap().split(" ").filter(|s| {
        !s.is_empty() && s.parse::<u64>().is_ok()
    })
    .map(|s| s.parse::<u64>().unwrap())
    .collect::<Vec<_>>();

    let distances = input.lines().collect::<Vec<_>>().get(1).unwrap().split(" ").filter(|s| {
        !s.is_empty() && s.parse::<u64>().is_ok()
    })
    .map(|s| s.parse::<u64>().unwrap())
    .collect::<Vec<_>>();

    let races = times.iter().enumerate().map(|(index, time)| {
        let distance = *distances.get(index).unwrap();

        Race::from((distance, *time))
    }).collect();

    assert_eq!(solve_part1(races), 288);
}

#[test]
fn day6_test_part2() {
    let input = INPUT_TEST;

    let nums: Vec<_> = input.lines().map(|line| line.split(" ").filter(|s| !s.is_empty() && s.parse::<u32>().is_ok()).collect::<Vec<_>>().join("").parse::<u64>().unwrap()).collect();

    let race = Race::from((*nums.get(1).unwrap(), *nums.get(0).unwrap()));

    assert_eq!(race.duration, 71530);
    assert_eq!(race.distance, 940200);

    let result = solve_part2(race);

    assert_eq!(result, 71503);
}

#[test]
fn ways_to_win_single_races() {
    assert_eq!(solve_part1(vec![Race::from((9, 7))]), 4);
    assert_eq!(solve_part1(vec![Race::from((40, 15))]), 8);
    assert_eq!(solve_part1(vec![Race::from((200, 30))]), 9);
    assert_eq!(solve_part1(vec![]), 1);
    assert_eq!(solve_part1(vec![Race::from((100, 7)), Race::from((9, 7))]), 0);
    assert_eq!(solve_part1(vec![Race::from((0, 2))]), 1);
    assert_eq!(solve_part1(vec![Race::from((0, 0))]), 0);
}

#[test]
fn range_of_winning_holds() {
    assert_eq!(solve_part2(Race::from((9, 7))), 4);
    assert_eq!(solve_part2(Race::from((40, 15))), 8);
    assert_eq!(solve_part2(Race::from((200, 30))), 9);
    assert_eq!(try_solve_part2(Race::from((12, 7))), None);
    assert_eq!(try_solve_part2(Race::from((0, 1))), None);
    assert_eq!(try_solve_part2(Race::from((0, 2))), Some(1));
}

#[test]
fn long_races_do_not_overflow() {
    let race = Race::from((u64::MAX, 8589934592));
    // 4294967296 * 4294967296 is above u64::MAX: the middle hold wins
    assert_eq!(try_solve_part1(vec![Race::from((u64::MAX, 3))]), Some(0));
    assert_eq!(race.duration, 8589934592);
    assert_eq!(race.distance, u64::MAX);
}

#[test]
fn product_above_the_limit_is_refused() {
    let races = (0..10).map(|_| Race::from((0, 200))).collect::<Vec<_>>();
    assert_eq!(try_solve_part1(races), None);
    let races = (0..2).map(|_| Race::from((0, 200))).collect::<Vec<_>>();
    assert_eq!(try_solve_part1(races), Some(199 * 199));
}

#[test]
fn races_are_read_from_two_lines() {
    let races = parse_races(INPUT_TEST).unwrap();
    assert_eq!(
        races,
        vec![Race::from((9, 7)), Race::from((40, 15)), Race::from((200, 30))]
    );
    assert_eq!(solve_part1(races), 288);
    assert_eq!(parse_races("Time: 7 x 15\nDistance: 9 40 200 1"), Some(vec![Race::from((9, 7)), Race::from((40, 15))]));
    assert_eq!(parse_races("Time: 7 15\nDistance: 9"), None);
    assert_eq!(parse_races("Time: 7 15"), None);
    assert_eq!(parse_races("\n"), None);
    assert_eq!(parse_races("\n\n"), Some(vec![]));
}

#[test]
fn one_race_is_read_from_joined_numbers() {
    let race = parse_race(INPUT_TEST).unwrap();
    assert_eq!(race, Race::from((940200, 71530)));
    assert_eq!(solve_part2(race), 71503);
    // words above 32 bits are passed over before the words are joined
    assert_eq!(
        parse_race("Time: 1 4294967296 2\nDistance: 12 4294967295"),
        Some(Race::from((124294967295, 12)))
    );
    assert_eq!(parse_race("Time: 1\nDistance: 4294967295 4294967295 4294967295"), None);
    assert_eq!(parse_race("Time: 1\nDistance: x"), None);
    assert_eq!(parse_race("Time: 1"), None);
    assert_eq!(parse_race("Time: 1\nDistance: 2\nWind: 3"), Some(Race::from((2, 1))));
    assert_eq!(parse_race("Time: 1\nDistance: 2\nWind"), None);
}
