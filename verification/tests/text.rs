use advent::text::{
    copy_range, is_all_numeric, is_word, keep_non_empty, parse_digits, parse_signed,
    parse_unsigned, same_chars, split_at_char, split_blocks, split_lines, split_words, to_chars,
    trim, trim_end_matches, trim_start_matches,
};

const SAMPLES: [&str; 24] = [
    "",
    "a",
    "\n",
    "\n\n",
    "\n\n\n",
    "a\n",
    "a\nb",
    "a\n\nb\n",
    "a\r\nb\r\n",
    "a\rb\r",
    "a\r\r\nb",
    "\r\n\r\n",
    "  two  words ",
    " \t x \u{a0}\u{3000}",
    "((a))b))",
    "a=b=c",
    ",,a,,",
    "one\n\ntwo\n\n\nthree\n\n\n\nfour",
    "+5",
    "-5",
    "007",
    "18446744073709551615",
    "18446744073709551616",
    "1\u{0663}2 \u{00b2}",
];

fn chars(s: &str) -> Vec<char> {
    s.chars().collect()
}

fn strings(pieces: Vec<Vec<char>>) -> Vec<String> {
    pieces.into_iter().map(|p| p.into_iter().collect()).collect()
}

#[test]
fn characters_of_a_text() {
    for s in SAMPLES {
        assert_eq!(to_chars(s), chars(s));
    }
    assert_eq!(copy_range(&chars("abcdef"), 2, 4), chars("cd"));
    assert_eq!(copy_range(&chars("abcdef"), 3, 3), chars(""));
    assert!(same_chars(&chars("abc"), &chars("abc")));
    assert!(!same_chars(&chars("abc"), &chars("abd")));
    assert!(!same_chars(&chars("abc"), &chars("ab")));
    assert!(is_word(&chars("red"), "red"));
    assert!(!is_word(&chars("red"), "reds"));
}

#[test]
fn splitting_is_splitting_of_strings() {
    for s in SAMPLES {
        for sep in ['\n', ' ', '=', ',', '('] {
            let expected = s.split(sep).map(|p| p.to_string()).collect::<Vec<_>>();
            assert_eq!(strings(split_at_char(&chars(s), sep)), expected, "{:?}", s);
            let expected = s
                .split(sep)
                .filter(|p| !p.is_empty())
                .map(|p| p.to_string())
                .collect::<Vec<_>>();
            assert_eq!(strings(split_words(&chars(s), sep)), expected, "{:?}", s);
            assert_eq!(
                strings(keep_non_empty(split_at_char(&chars(s), sep))),
                expected
            );
        }
    }
}

#[test]
fn lines_are_lines_of_strings() {
    for s in SAMPLES {
        let expected = s.lines().map(|p| p.to_string()).collect::<Vec<_>>();
        assert_eq!(strings(split_lines(&chars(s))), expected, "{:?}", s);
    }
}

#[test]
fn blocks_are_split_at_empty_lines() {
    for s in SAMPLES {
        let expected = s.split("\n\n").map(|p| p.to_string()).collect::<Vec<_>>();
        assert_eq!(strings(split_blocks(&chars(s))), expected, "{:?}", s);
    }
}

#[test]
fn trimming_is_trimming_of_strings() {
    for s in SAMPLES {
        assert_eq!(trim(&chars(s)), chars(s.trim()), "{:?}", s);
        for c in ['(', ')', 'a', '\n'] {
            assert_eq!(
                trim_start_matches(&chars(s), c),
                chars(s.trim_start_matches(c))
            );
            assert_eq!(trim_end_matches(&chars(s), c), chars(s.trim_end_matches(c)));
        }
        assert_eq!(is_all_numeric(&chars(s)), s.chars().all(|c| c.is_numeric()));
    }
}

#[test]
fn numbers_are_parsed_as_strings_are() {
    let more = [
        "0", "9", "10", "+0", "+", "-", "++1", "+-1", "-+1", "1 ", " 1", "1_000", "0x10", "65535",
        "65536", "4294967295", "4294967296", "9223372036854775807", "9223372036854775808",
        "-9223372036854775808", "-9223372036854775809", "-0", "00000000000000000000000000001",
        "99999999999999999999999999999",
    ];
    for s in SAMPLES.iter().chain(more.iter()) {
        assert_eq!(parse_unsigned(&chars(s), u64::MAX), s.parse::<u64>().ok(), "{:?}", s);
        assert_eq!(
            parse_unsigned(&chars(s), 65535),
            s.parse::<u16>().ok().map(|v| v as u64),
            "{:?}",
            s
        );
        assert_eq!(
            parse_unsigned(&chars(s), 4294967295),
            s.parse::<u32>().ok().map(|v| v as u64),
            "{:?}",
            s
        );
        assert_eq!(parse_signed(&chars(s)), s.parse::<i64>().ok(), "{:?}", s);
        let digits_only = !s.is_empty() && s.chars().all(|c| c.is_ascii_digit());
        assert_eq!(
            parse_digits(&chars(s)),
            if digits_only { s.parse::<u64>().ok() } else { None },
            "{:?}",
            s
        );
    }
}
