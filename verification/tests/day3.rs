use advent::day3::{parse_engine_rows, parse_row, solve, try_solve, Cell, EngineCell, EngineRow, IntoEngineRows};

const INPUT_TEST: &str = "467..114..\n...*......\n..35..633.\n......#...\n617*......\n.....+.58.\n..592.....\n......755.\n...$.*....\n.664.598..\n";

#[test]
fn test_parsing_cell() {
    let cell = Cell::from(".");
    assert_eq!(cell, Cell::Empty);

    let cell = Cell::from("123");
    assert_eq!(cell, Cell::Value(123));

    let cell = Cell::from("!");
    assert_eq!(cell, Cell::Symbol);

    let cell = Cell::from("$");
    assert_eq!(cell, Cell::Symbol);

    let cell = Cell::from("/");
    assert_eq!(cell, Cell::Symbol);

    let cell = Cell::from("*");
    assert_eq!(cell, Cell::Symbol);

    let cell = Cell::from("@");
    assert_eq!(cell, Cell::Symbol);

    let cell = Cell::from("=");
    assert_eq!(cell, Cell::Symbol);

    let cell = Cell::from("&");
    assert_eq!(cell, Cell::Symbol);

    let cell = Cell::from("$");
    assert_eq!(cell, Cell::Symbol);

    let cell = Cell::from("+");
    assert_eq!(cell, Cell::Symbol);

    let cell = Cell::from("-");
    assert_eq!(cell, Cell::Symbol);
}

#[test]
fn it_sums_correctly() {
    let input = INPUT_TEST;

    let engine_rows = input.into_engine_rows();

    let orphaned_numbers = engine_rows
        .iter()
        .map(|row| row.cells.clone())
        .flatten()
        .filter(|cell| {
            let own_row = engine_rows.get(cell.row).unwrap().clone();
            let upper_row = if cell.row > 0 {
                Some(engine_rows.get(cell.row - 1).unwrap().clone())
            } else {
                None
            };

            let lower_row = if cell.row < engine_rows.len() - 1 {
                Some(engine_rows.get(cell.row + 1).unwrap().clone())
            } else {
                None
            };

            cell.is_orphan(own_row, upper_row, lower_row)
        })
        .map(|cell| match cell.value {
            Cell::Value(v) => v,
            _ => unreachable!("should be value"),
        })
        .fold(std::collections::HashMap::new(), |mut acc, num| {
            *acc.entry(num).or_insert(0) += 1;
            acc
        })
        .into_iter()
        .filter(|(num, count)| *count == num.to_string().len())
        .map(|(num, _)| num)
        .collect::<Vec<u16>>();

    let cell_numbers = engine_rows
        .iter()
        .map(|row| row.cells.clone())
        .flatten()
        .filter(|cell| match cell.value {
            Cell::Value(_) => true,
            _ => false,
        })
        .map(|cell| match cell.value {
            Cell::Value(v) => v,
            _ => unreachable!("should be value"),
        })
        .collect::<Vec<u16>>();

    let non_orphaned_numbers = cell_numbers
        .iter()
        .filter(|num| !orphaned_numbers.contains(num))
        .collect::<Vec<&u16>>();

    // remove duplicates with set
    let sum: u32 = non_orphaned_numbers.iter().map(|num| **num)
        .collect::<std::collections::HashSet<u16>>()
        .into_iter()
        .map(|num| num as u32)
        .sum();

    assert_eq!(sum, 4361);
}

#[test]
fn sum_of_the_part_numbers() {
    let engine_rows = INPUT_TEST.into_engine_rows();
    assert_eq!(solve(&engine_rows), 4361);
    assert_eq!(try_solve(INPUT_TEST), Some(4361));
}

fn values(row: &EngineRow) -> Vec<Cell> {
    row.cells.iter().map(|cell| cell.value).collect()
}

#[test]
fn a_number_has_a_cell_for_each_digit() {
    let rows = "...123......#34.\n12..76........!.";

    let engine_rows = rows.into_engine_rows();

    assert_eq!(engine_rows.len(), 2);
    let e = Cell::Empty;
    let first_row = engine_rows.get(0).unwrap();
    // the last segment is there twice
    assert_eq!(
        values(first_row),
        vec![
            e, e, e,
            Cell::Value(123), Cell::Value(123), Cell::Value(123),
            e, e, e, e, e, e,
            Cell::Symbol,
            Cell::Value(34), Cell::Value(34),
            e, e
        ]
    );
    for (place, cell) in first_row.cells.iter().enumerate() {
        assert_eq!(cell.index, place);
        assert_eq!(cell.row, 0);
    }
    let second_row = engine_rows.get(1).unwrap();
    assert_eq!(second_row.cells.len(), 17);
    assert_eq!(second_row.cells[0], EngineCell::new(Cell::Value(12), 0, 1));
    assert_eq!(second_row.cells[1], EngineCell::new(Cell::Value(12), 1, 1));
    assert_eq!(second_row.cells[14], EngineCell::new(Cell::Symbol, 14, 1));
    assert_eq!(second_row.cells[16], EngineCell::new(Cell::Empty, 16, 1));
}

#[test]
fn a_number_at_the_end_of_a_line_is_left_out() {
    let line = "..58".chars().collect::<Vec<_>>();
    let row = parse_row(&line, 3).unwrap();
    assert_eq!(values(&row), vec![Cell::Empty, Cell::Empty, Cell::Empty]);
    let line = "58".chars().collect::<Vec<_>>();
    assert!(parse_row(&line, 0).unwrap().cells.is_empty());
}

#[test]
fn lines_that_show_no_row_are_refused() {
    let line = |s: &str| s.chars().collect::<Vec<_>>();
    assert!(parse_row(&line("..a.."), 0).is_none());
    assert!(parse_row(&line("..1a.."), 0).is_none());
    assert!(parse_row(&line(".. .."), 0).is_none());
    assert!(parse_row(&line("..65536.."), 0).is_none());
    assert!(parse_row(&line("..65535.."), 0).is_some());
    assert!(parse_engine_rows("..1..\n..x..").is_none());
    assert_eq!(try_solve("..1..\n..x.."), None);
    // an empty line is no row, but the rows behind it keep the index of their line
    assert_eq!(parse_engine_rows("..1..\n\n.....").unwrap().len(), 2);
    assert_eq!(try_solve("..1..\n\n....."), None);
}

#[test]
fn cell_lengths_and_symbols() {
    assert_eq!(Cell::Value(0).len(), 1);
    assert_eq!(Cell::Value(9).len(), 1);
    assert_eq!(Cell::Value(10).len(), 2);
    assert_eq!(Cell::Value(999).len(), 3);
    assert_eq!(Cell::Value(1000).len(), 4);
    assert_eq!(Cell::Value(65535).len(), 5);
    assert_eq!(Cell::Empty.len(), 0);
    assert_eq!(Cell::Symbol.len(), 0);
    assert!(EngineCell::new(Cell::Symbol, 0, 0).is_symbol());
    assert!(!EngineCell::new(Cell::Empty, 0, 0).is_symbol());
    assert!(!EngineCell::new(Cell::Value(1), 0, 0).is_symbol());
    let line = |s: &str| s.chars().collect::<Vec<_>>();
    assert_eq!(Cell::from_chars(&line("")), None);
    assert_eq!(Cell::from_chars(&line("a")), None);
    assert_eq!(Cell::from_chars(&line("~")), Some(Cell::Symbol));
    assert_eq!(Cell::from_chars(&line("`")), Some(Cell::Symbol));
    assert_eq!(Cell::from_chars(&line(".x")), Some(Cell::Empty));
}

#[test]
fn orphans_have_no_symbol_around() {
    let rows = "467..114..\n...*......\n..35..633.".into_engine_rows();
    let orphan = |row: usize, place: usize| {
        let cell = rows[row].cells[place];
        let upper = if row > 0 { Some(rows[row - 1].clone()) } else { None };
        let lower = if row + 1 < rows.len() { Some(rows[row + 1].clone()) } else { None };
        cell.is_orphan(rows[row].clone(), upper, lower)
    };
    assert!(!orphan(0, 0));
    assert!(orphan(0, 5));
    assert!(orphan(0, 6));
    assert!(orphan(0, 7));
    assert!(!orphan(0, 3));
    assert!(!orphan(2, 2));
    assert!(orphan(2, 6));
    assert!(!orphan(1, 3));
    let row = "617*...+58".into_engine_rows();
    assert!(!row[0].cells[0].is_orphan(row[0].clone(), None, None));
    // the cells of a number look from their own place on
    assert!(row[0].cells[1].is_orphan(row[0].clone(), None, None));
}

#[test]
fn a_number_counts_once() {
    assert_eq!(try_solve("12*...\n12*...\n"), Some(12));
    assert_eq!(try_solve("12*.34\n...*..\n"), Some(12));
    // two cells of the value 12 are orphans, as many as it has digits
    assert_eq!(try_solve("12....\n"), Some(0));
    assert_eq!(try_solve("12*12.\n"), Some(0));
    // four cells of the value 12 are orphans, more than it has digits
    assert_eq!(try_solve("12.12.\n"), Some(12));
    assert_eq!(try_solve(".....\n"), Some(0));
    assert_eq!(try_solve(""), Some(0));
}
