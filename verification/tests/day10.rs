use advent::day10::{
    parse_maze, solve_part1, try_solve_part1, try_walk_maze, walk_maze, Direction, Field,
    MazeError, PipeDirection,
};

const INPUT_TEST1: &str = ".....\n.S-7.\n.|.|.\n.L-J.\n.....\n";
const INPUT_TEST2: &str = "..F7.\n.FJ|.\nSJ.L7\n|F--J\nLJ...\n";

#[test]
fn it_parses_the_map_correctly() {
    let input = INPUT_TEST1;

    let map = input
        .lines()
        .map(|line| line.chars().map(Field::from).collect::<Vec<_>>())
        .collect::<Vec<_>>();

    assert_eq!(map[1][1].pipe, PipeDirection::Start);
    assert_eq!(map[1][2].pipe, PipeDirection::EastWest);
    assert_eq!(map[1][3].pipe, PipeDirection::SouthWest);

    assert_eq!(map[2][1].pipe, PipeDirection::NorthSouth);
    assert_eq!(map[2][2].pipe, PipeDirection::Ground);
    assert_eq!(map[2][3].pipe, PipeDirection::NorthSouth);

    assert_eq!(map[3][1].pipe, PipeDirection::NorthEast);
    assert_eq!(map[3][2].pipe, PipeDirection::EastWest);
    assert_eq!(map[3][3].pipe, PipeDirection::NorthWest);

    assert!(map[0]
        .iter()
        .all(|field| field.pipe == PipeDirection::Ground));
    assert!(map[4]
        .iter()
        .all(|field| field.pipe == PipeDirection::Ground));
    assert_eq!(map[0][4].pipe, PipeDirection::Ground);
    assert_eq!(map[2][4].pipe, PipeDirection::Ground);
    assert_eq!(map[3][4].pipe, PipeDirection::Ground);
    assert_eq!(map[4][4].pipe, PipeDirection::Ground);
    assert_eq!(map[0][0].pipe, PipeDirection::Ground);
    assert_eq!(map[2][0].pipe, PipeDirection::Ground);
    assert_eq!(map[3][0].pipe, PipeDirection::Ground);
    assert_eq!(map[4][0].pipe, PipeDirection::Ground);
}

#[test]
fn test_part1_test1() {
    let input = INPUT_TEST1;
    assert_eq!(solve_part1(input), 4);
}

#[test]
fn test_part1_test2() {
    let input = INPUT_TEST2;
    assert_eq!(solve_part1(input), 8);
}

#[test]
fn parsed_maze_agrees_with_field_from() {
    let map = parse_maze(INPUT_TEST2).unwrap();
    assert_eq!(map.len(), 5);
    for (row, line) in map.iter().zip(INPUT_TEST2.lines()) {
        assert_eq!(row.len(), 5);
        for (field, c) in row.iter().zip(line.chars()) {
            assert_eq!(field.pipe, Field::from(c).pipe);
            assert!(!field.visited);
            assert!(field.steps.is_empty());
        }
    }
}

#[test]
fn loop_among_pipes_that_do_not_belong_to_it() {
    let input = "7-F7-\n.FJ|7\nSJLL7\n|F--J\nLJ.LJ";
    assert_eq!(solve_part1(input), 8);
    assert_eq!(try_solve_part1(input), Ok(8));
}

#[test]
fn smallest_loop_has_its_farthest_point_two_steps_away() {
    assert_eq!(solve_part1("S7\nLJ"), 2);
    assert_eq!(solve_part1("F7\nLS"), 2);
}

#[test]
fn unknown_character_is_no_maze() {
    assert!(parse_maze(".S-7.\n.|x|.\n.L-J.").is_none());
    assert_eq!(
        try_solve_part1(".S-7.\n.|x|.\n.L-J."),
        Err(MazeError::InvalidCharacter)
    );
    // a maze without a start and with a character that stands for no cell
    assert_eq!(
        try_solve_part1(".F-7.\n.|x|.\n.L-J."),
        Err(MazeError::InvalidCharacter)
    );
}

#[test]
fn maze_without_start_is_refused() {
    assert!(parse_maze(".F-7.\n.|.|.\n.L-J.").is_some());
    assert_eq!(try_solve_part1(".F-7.\n.|.|.\n.L-J."), Err(MazeError::NoStart));
    assert_eq!(try_solve_part1(""), Err(MazeError::NoStart));
}

#[test]
fn maze_without_a_loop_is_refused() {
    assert_eq!(try_solve_part1("...\n.S.\n..."), Err(MazeError::NoLoop));
    assert_eq!(try_solve_part1("S"), Err(MazeError::NoLoop));
    // east of the start a pipe leads to the edge of the grid
    assert_eq!(try_solve_part1("S--"), Err(MazeError::NoLoop));
    // the pipe east of the start ends at a cell that does not accept the walker
    assert_eq!(try_solve_part1("S-7\n..."), Err(MazeError::NoLoop));
    assert_eq!(try_solve_part1("S-|"), Err(MazeError::NoLoop));
    let map = parse_maze("S-7\n...").unwrap();
    assert_eq!(try_walk_maze(map), Err(MazeError::NoLoop));
    let map = parse_maze("S7\nLJ").unwrap();
    assert_eq!(try_walk_maze(map), Ok(2));
}

#[test]
fn maze_with_two_loops_through_the_start_is_refused() {
    assert_eq!(
        try_solve_part1("F7.\nLS7\n.LJ"),
        Err(MazeError::SeveralLoops)
    );
    assert_eq!(try_solve_part1("F7.\nLS.\n..."), Ok(2));
    assert_eq!(try_solve_part1("...\n.S7\n.LJ"), Ok(2));
}

#[test]
fn loop_lengths_give_half_as_farthest_point() {
    // 4, 8, 12 and 16 cells
    assert_eq!(solve_part1("S7\nLJ"), 2);
    assert_eq!(solve_part1("F-7\n|.|\nL-S"), 4);
    assert_eq!(solve_part1("F--7\n|..|\nS..|\nL--J"), 6);
    assert_eq!(solve_part1("F---7\n|...|\n|.S-J\n|.|..\nL-J.."), 8);
}

#[test]
fn pipes_beside_the_loop_that_the_start_leads_to_count_too() {
    // all four neighbours of the start can be entered; two of them lead off the grid
    assert_eq!(solve_part1(".|.\n-S7\n.LJ"), 2);
    // west of the start five pipes lead to the edge: the last is five steps away
    assert_eq!(solve_part1("-----S7\n.....LJ"), 5);
}

#[test]
fn acceptance_table() {
    let accepted = [
        (PipeDirection::NorthSouth, Direction::North),
        (PipeDirection::NorthSouth, Direction::South),
        (PipeDirection::SouthEast, Direction::North),
        (PipeDirection::SouthEast, Direction::West),
        (PipeDirection::SouthWest, Direction::North),
        (PipeDirection::SouthWest, Direction::East),
        (PipeDirection::NorthEast, Direction::South),
        (PipeDirection::NorthEast, Direction::West),
        (PipeDirection::NorthWest, Direction::South),
        (PipeDirection::NorthWest, Direction::East),
        (PipeDirection::EastWest, Direction::East),
        (PipeDirection::EastWest, Direction::West),
    ];
    let pipes = [
        PipeDirection::NorthSouth,
        PipeDirection::SouthEast,
        PipeDirection::SouthWest,
        PipeDirection::NorthEast,
        PipeDirection::NorthWest,
        PipeDirection::EastWest,
        PipeDirection::Ground,
        PipeDirection::Start,
    ];
    let directions = [
        Direction::North,
        Direction::South,
        Direction::East,
        Direction::West,
    ];
    for pipe in pipes {
        for direction in directions {
            let field = Field::new(pipe);
            assert_eq!(
                field.can_i_visit(direction),
                accepted.contains(&(pipe, direction))
            );
            assert_eq!(
                pipe.next_direction(direction).is_some(),
                accepted.contains(&(pipe, direction))
            );
        }
    }
}

#[test]
fn next_direction_follows_the_bend() {
    assert_eq!(
        PipeDirection::NorthEast.next_direction(Direction::South),
        Some(Direction::East)
    );
    assert_eq!(
        PipeDirection::NorthEast.next_direction(Direction::West),
        Some(Direction::North)
    );
    assert_eq!(
        PipeDirection::SouthWest.next_direction(Direction::East),
        Some(Direction::South)
    );
    assert_eq!(PipeDirection::Ground.next_direction(Direction::East), None);
    assert_eq!(PipeDirection::Start.next_direction(Direction::North), None);
}

#[test]
fn visited_field_refuses_a_second_visit() {
    let mut field = Field::new(PipeDirection::EastWest);
    assert!(field.can_i_visit(Direction::East));
    field.visit(3);
    assert!(field.visited);
    assert_eq!(field.steps, vec![3]);
    assert!(!field.can_i_visit(Direction::East));
}

#[test]
fn walk_maze_takes_a_grid_of_fields() {
    let map = "S7\nLJ"
        .lines()
        .map(|line| line.chars().map(Field::from).collect::<Vec<_>>())
        .collect::<Vec<_>>();
    assert_eq!(walk_maze(map), 2);
}
