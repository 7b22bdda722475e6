use advent::day1::{
    char_to_number, numeric_chars, numeric_words, parse_first_number, parse_input,
    parse_last_number, parse_number, solve, try_parse_input, try_parse_number, try_solve,
    word_to_number,
};

#[test]
fn digits_written_as_characters() {
    assert_eq!(solve("1abc2\npqr3stu8vwx\na1b2c3d4e5f\ntreb7uchet"), 142);
    assert_eq!(parse_input("1abc2\npqr3stu8vwx\na1b2c3d4e5f\ntreb7uchet\n"), vec![12, 38, 15, 77]);
}

#[test]
fn digits_written_as_words() {
    let input = "two1nine\neightwothree\nabcone2threexyz\nxtwone3four\n4nineeightseven2\nzoneight234\n7pqrstsixteen\n";
    assert_eq!(parse_input(input), vec![29, 83, 13, 24, 42, 14, 76]);
    assert_eq!(solve(input), 281);
}

#[test]
fn words_that_overlap_both_count() {
    assert_eq!(parse_number("eightwo"), 82);
    assert_eq!(parse_number("oneight"), 18);
    assert_eq!(parse_number("twone"), 21);
    assert_eq!(parse_number("nineight"), 98);
}

#[test]
fn one_digit_is_first_and_last() {
    assert_eq!(parse_number("treb7uchet"), 77);
    assert_eq!(parse_number("seven"), 77);
    assert_eq!(parse_number("0"), 0);
    assert_eq!(parse_number("a0b9"), 9);
    assert_eq!(parse_number("nine0"), 90);
}

#[test]
fn lines_without_a_digit_have_no_value() {
    let line = |s: &str| s.chars().collect::<Vec<_>>();
    assert_eq!(try_parse_number(&line("abc")), None);
    assert_eq!(try_parse_number(&line("")), None);
    assert_eq!(try_parse_number(&line("zero")), None);
    assert_eq!(try_parse_number(&line("a1b")), Some(11));
    assert_eq!(try_parse_input("1abc2\nxyz"), None);
    assert_eq!(try_solve("1abc2\nxyz"), None);
    assert_eq!(try_solve(""), Some(0));
    // a numeric character that is none of the ten digits comes first
    assert_eq!(try_parse_number(&line("\u{0663}1")), None);
    assert_eq!(try_parse_number(&line("1\u{0663}")), None);
    assert_eq!(try_parse_number(&line("1\u{0663}2")), Some(12));
}

#[test]
fn words_and_characters_are_found_with_their_places() {
    let line = "xtwone3four".chars().collect::<Vec<_>>();
    let words = numeric_words(&line);
    assert_eq!(
        words,
        vec![
            ("two".to_string(), 1),
            ("one".to_string(), 3),
            ("four".to_string(), 7)
        ]
    );
    let chars = numeric_chars(&line);
    assert_eq!(chars, vec![('3', 6)]);
    assert_eq!(parse_first_number(&words, &chars), 2);
    assert_eq!(parse_last_number(&words, &chars), 4);
    assert_eq!(parse_first_number(&[], &chars), 3);
    assert_eq!(parse_last_number(&words, &[]), 4);
    assert_eq!(parse_first_number(&words[2..], &chars), 3);
    assert_eq!(parse_last_number(&words[..2], &chars), 3);
}

#[test]
fn values_of_words_and_characters() {
    let names = [
        "one", "two", "three", "four", "five", "six", "seven", "eight", "nine",
    ];
    for (i, name) in names.iter().enumerate() {
        assert_eq!(word_to_number(&(name.to_string(), 0)), Some(i as u8 + 1));
    }
    assert_eq!(word_to_number(&("ten".to_string(), 0)), None);
    for (i, c) in "0123456789".chars().enumerate() {
        assert_eq!(char_to_number(&(c, 0)), Some(i as u8));
    }
    assert_eq!(char_to_number(&('x', 0)), None);
    assert_eq!(char_to_number(&('\u{0663}', 0)), None);
}
