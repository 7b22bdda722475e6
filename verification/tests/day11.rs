use advent::day11::{
    get_empty_space, get_galaxies, get_galaxy_pairs, parse_input, solve_by_shift, solve_part1,
    solve_part_2, try_parse_input, try_solve_by_shift, Galaxy, SpaceField,
};

const INPUT_TEST: &str = "...#......\n.......#..\n#.........\n..........\n......#...\n.#........\n.........#\n..........\n.......#..\n#...#.....\n";

#[test]
fn test_parse_input() {
    let input = INPUT_TEST;
    let space = parse_input(input);

    assert_eq!(space[0][3], SpaceField::Galaxy);
    assert_eq!(space[1][7], SpaceField::Galaxy);
    assert_eq!(space[2][0], SpaceField::Galaxy);
    assert_eq!(space[4][6], SpaceField::Galaxy);
    assert_eq!(space[5][1], SpaceField::Galaxy);
    assert_eq!(space[6][9], SpaceField::Galaxy);
    assert_eq!(space[8][7], SpaceField::Galaxy);
    assert_eq!(space[9][0], SpaceField::Galaxy);
    assert_eq!(space[9][4], SpaceField::Galaxy);

    assert!(space[3].iter().all(|field| field == &SpaceField::Space));
    assert!(space[7].iter().all(|field| field == &SpaceField::Space));
}

#[test]
fn day11_test_part1() {
    let input = INPUT_TEST;
    let sum = solve_part1(input);
    assert_eq!(sum, 374);
}

#[test]
fn test_part1_by_shifting() {
    let input = INPUT_TEST;
    let sum = solve_by_shift(input, 1);
    assert_eq!(sum, 374);
}

#[test]
fn test_solving_with_10x_expand() {
    let input = INPUT_TEST;
    let sum = solve_by_shift(input, 10);
    assert_eq!(sum, 1030);
}

#[test]
fn test_solving_with_100x_expand() {
    let input = INPUT_TEST;
    let sum = solve_by_shift(input, 100);
    assert_eq!(sum, 8410);
}

#[test]
fn a_million_times_larger() {
    assert_eq!(solve_part_2(INPUT_TEST), 82000210);
    assert_eq!(solve_by_shift(INPUT_TEST, 2), 374);
}

#[test]
fn galaxies_rows_and_columns_are_found() {
    let space = parse_input(INPUT_TEST);
    let galaxies = get_galaxies(&space);
    assert_eq!(galaxies.len(), 9);
    assert_eq!(galaxies[0], Galaxy(3, 0));
    assert_eq!(galaxies[1], Galaxy(7, 1));
    assert_eq!(galaxies[7], Galaxy(0, 9));
    assert_eq!(galaxies[8], Galaxy(4, 9));
    let (rows, columns) = get_empty_space(&space);
    assert_eq!(rows, vec![3, 7]);
    assert_eq!(columns, vec![2, 5, 8]);
    assert_eq!(get_galaxy_pairs(&galaxies).len(), 36);
}

#[test]
fn every_pair_is_there_once() {
    let galaxies = vec![Galaxy(0, 0), Galaxy(1, 1), Galaxy(0, 0), Galaxy(1, 1)];
    let pairs = get_galaxy_pairs(&galaxies);
    assert_eq!(
        pairs,
        vec![
            (Galaxy(0, 0), Galaxy(1, 1)),
            (Galaxy(0, 0), Galaxy(0, 0)),
            (Galaxy(1, 1), Galaxy(0, 0)),
            (Galaxy(1, 1), Galaxy(1, 1)),
        ]
    );
    assert!(get_galaxy_pairs(&[Galaxy(5, 5)]).is_empty());
}

#[test]
fn distance_counts_rows_and_columns() {
    assert_eq!(Galaxy(1, 6).distance(&Galaxy(5, 11)), 9);
    assert_eq!(Galaxy(5, 11).distance(&Galaxy(1, 6)), 9);
    assert_eq!(Galaxy(4, 0).distance(&Galaxy(9, 10)), 15);
    assert_eq!(Galaxy(3, 3).distance(&Galaxy(3, 3)), 0);
}

#[test]
fn shifting_moves_by_the_rows_and_columns_before() {
    let mut galaxy = Galaxy(7, 8);
    galaxy.shift_x(&[2, 5, 8], None);
    assert_eq!(galaxy, Galaxy(9, 8));
    galaxy.shift_y(&[3, 7], Some(10));
    assert_eq!(galaxy, Galaxy(9, 26));
    let mut galaxy = Galaxy(2, 3);
    galaxy.shift_x(&[2, 5, 8], Some(100));
    galaxy.shift_y(&[3, 7], Some(100));
    assert_eq!(galaxy, Galaxy(2, 3));
    galaxy.shift_x(&[0, 1], Some(1));
    assert_eq!(galaxy, Galaxy(4, 3));
    galaxy.shift_x(&[9], Some(0));
    assert_eq!(galaxy, Galaxy(4, 3));
}

#[test]
fn other_characters_are_refused() {
    assert!(try_parse_input("..#\n.x.").is_none());
    assert_eq!(try_solve_by_shift("..#\n.x.", 1), None);
    assert_eq!(try_solve_by_shift("", 1), None);
    assert_eq!(try_solve_by_shift("..#\n#", 1), None);
    assert_eq!(try_solve_by_shift("#\n..#", 1), Some(3));
    assert_eq!(try_solve_by_shift("#.#", 0), None);
    assert_eq!(try_solve_by_shift("##", 0), Some(1));
    assert_eq!(SpaceField::from('#'), SpaceField::Galaxy);
    assert_eq!(SpaceField::from('.'), SpaceField::Space);
    assert!(SpaceField::Galaxy.is_galaxy());
    assert!(!SpaceField::Space.is_galaxy());
    assert_eq!(SpaceField::Galaxy.to_char(), '#');
}
