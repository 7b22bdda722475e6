use advent::day8::{
    is_below, lcm, lcm_of, parse_network, parse_node, solve_part1, solve_part2, try_solve_part1,
    try_solve_part2, walk, walk_parallel, walk_single, Direction, Goal, Node, WalkError,
};

const INPUT_TEST1: &str = "RL\n\nAAA = (BBB, CCC)\nBBB = (DDD, EEE)\nCCC = (ZZZ, GGG)\nDDD = (DDD, DDD)\nEEE = (EEE, EEE)\nGGG = (GGG, GGG)\nZZZ = (ZZZ, ZZZ)\n";
const INPUT_TEST2: &str = "LLR\n\nAAA = (BBB, BBB)\nBBB = (AAA, ZZZ)\nZZZ = (ZZZ, ZZZ)\n";
const INPUT_TEST3: &str = "LR\n\n11A = (11B, XXX)\n11B = (XXX, 11Z)\n11Z = (11B, XXX)\n22A = (22B, XXX)\n22B = (22C, 22C)\n22C = (22Z, 22Z)\n22Z = (22B, 22B)\nXXX = (XXX, XXX)\n";

#[test]
fn part1_test1_works() {
    let input = INPUT_TEST1;
    let result = solve_part1(input);
    assert_eq!(result, 2);
}

#[test]
fn part1_test2_works() {
    let input = INPUT_TEST2;
    let result = solve_part1(input);
    assert_eq!(result, 6);
}

#[test]
fn part2_test1_works() {
    let input = INPUT_TEST3;
    let result = solve_part2(input);
    assert_eq!(result, 6);
}

fn label(s: &str) -> Vec<char> {
    s.chars().collect()
}

fn node(l: &str, left: &str, right: &str) -> Node {
    Node {
        label: label(l),
        left: label(left),
        right: label(right),
    }
}

#[test]
fn three_turns_for_two_rounds_reach_the_terminal() {
    let nodes = vec![
        node("AAA", "BBB", "BBB"),
        node("BBB", "AAA", "ZZZ"),
        node("ZZZ", "ZZZ", "ZZZ"),
    ];
    let turns = vec![Direction::Left, Direction::Left, Direction::Right];
    assert_eq!(
        walk_single(&nodes, &turns, &label("AAA"), &label("ZZZ")),
        Ok(6)
    );
    assert_eq!(
        walk_single(&nodes, &turns, &label("ZZZ"), &label("ZZZ")),
        Ok(0)
    );
    assert_eq!(
        walk_single(&nodes, &turns, &label("BBB"), &label("AAA")),
        Ok(1)
    );
}

#[test]
fn walkers_of_periods_two_three_and_three_meet_after_six_steps() {
    let nodes = vec![
        node("1A", "1Z", "1Z"),
        node("1Z", "1A", "1A"),
        node("2A", "2B", "2B"),
        node("2B", "2Z", "2Z"),
        node("2Z", "2A", "2A"),
        node("3A", "3B", "3B"),
        node("3B", "3Z", "3Z"),
        node("3Z", "3A", "3A"),
    ];
    let turns = vec![Direction::Left];
    let starts = vec![label("1A"), label("2A"), label("3A")];
    // the first arrival of each walker counts: after 1, 2 and 2 steps
    assert_eq!(walk_parallel(&nodes, &turns, &starts, 'Z'), Ok(2));
    let goal = Goal::EndsWith('Z');
    assert_eq!(walk(&nodes, &turns, &label("1A"), &goal), Ok(1));
    assert_eq!(walk(&nodes, &turns, &label("2A"), &goal), Ok(2));
    let nodes = vec![
        node("1A", "1Z", "1Z"),
        node("1Z", "1A", "1A"),
        node("2A", "2B", "2B"),
        node("2B", "2C", "2C"),
        node("2C", "2Z", "2Z"),
        node("2Z", "2Z", "2Z"),
    ];
    let starts = vec![label("1A"), label("2A"), label("2A")];
    // numbers of steps 1, 3 and 3 give 3; 2, 3 and 3 give 6
    assert_eq!(walk_parallel(&nodes, &turns, &starts, 'Z'), Ok(3));
    let starts = vec![label("1Z"), label("2A")];
    assert_eq!(walk_parallel(&nodes, &turns, &starts, 'Z'), Ok(0));
    let nodes = vec![
        node("1A", "1B", "1B"),
        node("1B", "1Z", "1Z"),
        node("1Z", "1B", "1B"),
        node("2A", "2B", "2B"),
        node("2B", "2C", "2C"),
        node("2C", "2Z", "2Z"),
        node("2Z", "2B", "2B"),
        node("3A", "3B", "3B"),
        node("3B", "3C", "3C"),
        node("3C", "3Z", "3Z"),
        node("3Z", "3B", "3B"),
    ];
    let starts = vec![label("1A"), label("2A"), label("3A")];
    assert_eq!(walk_parallel(&nodes, &turns, &starts, 'Z'), Ok(6));
}

#[test]
fn walk_to_a_label_without_a_node_fails() {
    let nodes = vec![node("AAA", "BBB", "CCC"), node("BBB", "AAA", "AAA")];
    let turns = vec![Direction::Right];
    assert_eq!(
        walk_single(&nodes, &turns, &label("AAA"), &label("ZZZ")),
        Err(WalkError::UnknownLabel)
    );
    assert_eq!(
        walk_parallel(&nodes, &turns, &vec![label("AAA")], 'Z'),
        Err(WalkError::UnknownLabel)
    );
    assert_eq!(
        walk_single(&nodes, &turns, &label("QQQ"), &label("ZZZ")),
        Err(WalkError::UnknownLabel)
    );
}

#[test]
fn later_node_of_a_label_holds() {
    let nodes = vec![
        node("AAA", "AAA", "AAA"),
        node("ZZZ", "ZZZ", "ZZZ"),
        node("AAA", "ZZZ", "ZZZ"),
    ];
    let turns = vec![Direction::Left];
    assert_eq!(
        walk_single(&nodes, &turns, &label("AAA"), &label("ZZZ")),
        Ok(1)
    );
}

#[test]
fn least_common_multiples() {
    assert_eq!(lcm(4, 6), Some(12));
    assert_eq!(lcm(6, 4), Some(12));
    assert_eq!(lcm(7, 13), Some(91));
    assert_eq!(lcm(5, 5), Some(5));
    assert_eq!(lcm(0, 5), Some(0));
    assert_eq!(lcm(5, 0), Some(0));
    assert_eq!(lcm(0, 0), Some(0));
    assert_eq!(lcm(1, u64::MAX), Some(u64::MAX));
    assert_eq!(lcm(u64::MAX, u64::MAX - 1), None);
    assert_eq!(lcm(1 << 63, 1 << 62), Some(1 << 63));
    assert_eq!(lcm_of(&vec![2, 3, 3]), Some(6));
    assert_eq!(lcm_of(&vec![12]), Some(12));
    assert_eq!(lcm_of(&vec![u64::MAX, u64::MAX - 1, 0]), Some(0));
    assert_eq!(lcm_of(&vec![u64::MAX, u64::MAX - 1, 4]), None);
}

#[test]
fn nodes_are_read_from_lines() {
    let line = |s: &str| s.chars().collect::<Vec<_>>();
    let parsed = parse_node(&line("AAA = (BBB, CCC)")).unwrap();
    assert_eq!(parsed.label, label("AAA"));
    assert_eq!(parsed.left, label("BBB"));
    assert_eq!(parsed.right, label("CCC"));
    let parsed = parse_node(&line("  A B=((X ,  Y)) = ignored")).unwrap();
    assert_eq!(parsed.label, label("A B"));
    assert_eq!(parsed.left, label("X"));
    assert_eq!(parsed.right, label("Y"));
    assert!(parse_node(&line("AAA (BBB, CCC)")).is_none());
    assert!(parse_node(&line("AAA = (BBB)")).is_none());
    assert!(parse_node(&line("AAA = (BBB, CCC, DDD)")).is_none());
}

#[test]
fn network_text_is_read_in_blocks() {
    let (turns, nodes) = parse_network(INPUT_TEST2).unwrap();
    assert_eq!(
        turns,
        vec![Direction::Left, Direction::Left, Direction::Right]
    );
    assert_eq!(nodes.len(), 3);
    assert_eq!(nodes[1].label, label("BBB"));
    assert_eq!(nodes[1].left, label("AAA"));
    assert_eq!(nodes[1].right, label("ZZZ"));
    assert!(parse_network("LLR").is_none());
    assert!(parse_network("LXR\n\nAAA = (BBB, BBB)").is_none());
    assert!(parse_network("LLR\n\nAAA = BBB").is_none());
    assert_eq!(Direction::from('L'), Direction::Left);
    assert_eq!(Direction::from('R'), Direction::Right);
    assert_eq!(Direction::from_char('x'), None);
}

#[test]
fn texts_without_an_answer_are_refused() {
    assert_eq!(try_solve_part1(INPUT_TEST1), Some(2));
    assert_eq!(try_solve_part2(INPUT_TEST3), Some(6));
    assert_eq!(try_solve_part1("\n\nAAA = (BBB, BBB)"), None);
    assert_eq!(try_solve_part1("L\n\n"), None);
    assert_eq!(try_solve_part1("L\n\nAAA = (BBB, BBB)\nCCC = (AAA, AAA)"), None);
    assert_eq!(try_solve_part2("L\n\nAAB = (BBB, BBB)"), None);
    assert_eq!(try_solve_part2("L\n\nAAA = (BBB, BBB)"), None);
}

#[test]
fn start_is_the_first_label_and_terminal_the_last() {
    let input = "R\n\nMMM = (MMM, ZZZ)\nZZZ = (ZZZ, ZZZ)\nAAA = (AAA, MMM)";
    assert_eq!(solve_part1(input), 2);
    assert!(is_below(&label("AAA"), &label("AAB")));
    assert!(is_below(&label("AA"), &label("AAA")));
    assert!(!is_below(&label("AAA"), &label("AAA")));
    assert!(!is_below(&label("B"), &label("AAA")));
    assert!(is_below(&label(""), &label("A")));
}
