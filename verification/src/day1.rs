//! Calibration values: the first and the last digit of each line, where a
//! digit may be written as a character or as a word.
use crate::text::{
    digit_value, is_digit, is_numeric, is_word, lines, numeric, split_lines, texts, to_chars,
};
use vstd::prelude::*;
use vstd::string::StringExecFns;

verus! {

/// A digit written as a word, and the place in the line where the word begins.
pub type NumericWord = (String, usize);

/// A numeric character, and its place in the line.
pub type NumericChar = (char, usize);

/// The digit that a word names, if it names one.
pub open spec fn word_value(word: Seq<char>) -> Option<u8> {
    if word == "one"@ {
        Some(1u8)
    } else if word == "two"@ {
        Some(2u8)
    } else if word == "three"@ {
        Some(3u8)
    } else if word == "four"@ {
        Some(4u8)
    } else if word == "five"@ {
        Some(5u8)
    } else if word == "six"@ {
        Some(6u8)
    } else if word == "seven"@ {
        Some(7u8)
    } else if word == "eight"@ {
        Some(8u8)
    } else if word == "nine"@ {
        Some(9u8)
    } else {
        None
    }
}

/// The digit that a character stands for, if it is one of the ten digits.
pub open spec fn char_value(c: char) -> Option<u8> {
    if is_digit(c) {
        Some(digit_value(c) as u8)
    } else {
        None
    }
}

/// The words with their places, as plain values.
pub open spec fn word_views(words: Seq<NumericWord>) -> Seq<(Seq<char>, usize)> {
    Seq::new(words.len(), |i: int| (words[i].0@, words[i].1))
}

/// The first digit of a line of which these are the digit words and the
/// numeric characters, both in the order of their places: the one that begins
/// first. There is none if the line has neither, or if what begins first is a
/// numeric character that is not one of the ten digits or a word that names no
/// digit.
pub open spec fn first_digit(words: Seq<(Seq<char>, usize)>, chars: Seq<NumericChar>) -> Option<u8> {
    if chars.len() > 0 && words.len() == 0 {
        char_value(chars.first().0)
    } else if chars.len() == 0 && words.len() > 0 {
        word_value(words.first().0)
    } else if chars.len() > 0 && words.len() > 0 {
        if words.first().1 < chars.first().1 {
            word_value(words.first().0)
        } else {
            char_value(chars.first().0)
        }
    } else {
        None
    }
}

/// The last digit of a line of which these are the digit words and the numeric
/// characters: the one that begins last.
pub open spec fn last_digit(words: Seq<(Seq<char>, usize)>, chars: Seq<NumericChar>) -> Option<u8> {
    if chars.len() > 0 && words.len() == 0 {
        char_value(chars.last().0)
    } else if chars.len() == 0 && words.len() > 0 {
        word_value(words.last().0)
    } else if chars.len() > 0 && words.len() > 0 {
        if words.last().1 > chars.last().1 {
            word_value(words.last().0)
        } else {
            char_value(chars.last().0)
        }
    } else {
        None
    }
}

/// The digit that the character stands for, if it is one of the ten digits.
pub fn char_to_number(numeric_char: &NumericChar) -> (n: Option<u8>)
    ensures
        n == char_value(numeric_char.0),
{
    let c = numeric_char.0;
    if c >= '0' && c <= '9' {
        Some((c as u32 - '0' as u32) as u8)
    } else {
        None
    }
}

/// The digit that the word names, if it names one.
pub fn word_to_number(numeric_word: &NumericWord) -> (n: Option<u8>)
    ensures
        n == word_value(numeric_word.0@),
{
    let word = to_chars(numeric_word.0.as_str());
    let word = word.as_slice();
    if is_word(word, "one") {
        Some(1)
    } else if is_word(word, "two") {
        Some(2)
    } else if is_word(word, "three") {
        Some(3)
    } else if is_word(word, "four") {
        Some(4)
    } else if is_word(word, "five") {
        Some(5)
    } else if is_word(word, "six") {
        Some(6)
    } else if is_word(word, "seven") {
        Some(7)
    } else if is_word(word, "eight") {
        Some(8)
    } else if is_word(word, "nine") {
        Some(9)
    } else {
        None
    }
}

/// The first digit of a line, if it has one.
fn find_first_number(numeric_words: &[NumericWord], numeric_chars: &[NumericChar]) -> (n: Option<u8>)
    ensures
        n == first_digit(word_views(numeric_words@), numeric_chars@),
{
    let has_chars = numeric_chars.len() > 0;
    let has_words = numeric_words.len() > 0;
    if has_words {
        assert(word_views(numeric_words@).first() == (numeric_words@[0].0@, numeric_words@[0].1));
    }
    if has_chars && !has_words {
        char_to_number(&numeric_chars[0])
    } else if !has_chars && has_words {
        word_to_number(&numeric_words[0])
    } else if has_chars && has_words {
        if numeric_words[0].1 < numeric_chars[0].1 {
            word_to_number(&numeric_words[0])
        } else {
            char_to_number(&numeric_chars[0])
        }
    } else {
        None
    }
}

/// The last digit of a line, if it has one.
fn find_last_number(numeric_words: &[NumericWord], numeric_chars: &[NumericChar]) -> (n: Option<u8>)
    ensures
        n == last_digit(word_views(numeric_words@), numeric_chars@),
{
    let has_chars = numeric_chars.len() > 0;
    let has_words = numeric_words.len() > 0;
    if has_words {
        let last = numeric_words.len() - 1;
        assert(word_views(numeric_words@).last() == (
            numeric_words@[last as int].0@,
            numeric_words@[last as int].1,
        ));
    }
    if has_chars && !has_words {
        char_to_number(&numeric_chars[numeric_chars.len() - 1])
    } else if !has_chars && has_words {
        word_to_number(&numeric_words[numeric_words.len() - 1])
    } else if has_chars && has_words {
        if numeric_words[numeric_words.len() - 1].1 > numeric_chars[numeric_chars.len() - 1].1 {
            word_to_number(&numeric_words[numeric_words.len() - 1])
        } else {
            char_to_number(&numeric_chars[numeric_chars.len() - 1])
        }
    } else {
        None
    }
}

/// The first digit of a line of which these are the digit words and the
/// numeric characters, both in the order of their places.
pub fn parse_first_number(numeric_words: &[NumericWord], numeric_chars: &[NumericChar]) -> (n: u8)
    requires
        first_digit(word_views(numeric_words@), numeric_chars@) is Some,
    ensures
        Some(n) == first_digit(word_views(numeric_words@), numeric_chars@),
{
    match find_first_number(numeric_words, numeric_chars) {
        Some(n) => n,
        None => vstd::pervasive::unreached(),
    }
}

/// The last digit of a line of which these are the digit words and the numeric
/// characters, both in the order of their places.
pub fn parse_last_number(numeric_words: &[NumericWord], numeric_chars: &[NumericChar]) -> (n: u8)
    requires
        last_digit(word_views(numeric_words@), numeric_chars@) is Some,
    ensures
        Some(n) == last_digit(word_views(numeric_words@), numeric_chars@),
{
    match find_last_number(numeric_words, numeric_chars) {
        Some(n) => n,
        None => vstd::pervasive::unreached(),
    }
}

/// Whether the word `word` stands in the line from place `i` on.
pub open spec fn stands_at(line: Seq<char>, i: int, word: Seq<char>) -> bool {
    0 <= i && i + word.len() <= line.len() && line.subrange(i, i + word.len()) == word
}

/// The digit word that begins at place `i` of the line, if one does.
pub open spec fn word_at(line: Seq<char>, i: int) -> Option<Seq<char>> {
    if stands_at(line, i, "one"@) {
        Some("one"@)
    } else if stands_at(line, i, "two"@) {
        Some("two"@)
    } else if stands_at(line, i, "three"@) {
        Some("three"@)
    } else if stands_at(line, i, "four"@) {
        Some("four"@)
    } else if stands_at(line, i, "five"@) {
        Some("five"@)
    } else if stands_at(line, i, "six"@) {
        Some("six"@)
    } else if stands_at(line, i, "seven"@) {
        Some("seven"@)
    } else if stands_at(line, i, "eight"@) {
        Some("eight"@)
    } else if stands_at(line, i, "nine"@) {
        Some("nine"@)
    } else {
        None
    }
}

/// The digit words that begin before place `n` of the line, each with its
/// place, in the order of their places.
pub open spec fn numeric_words_of(line: Seq<char>, n: int) -> Seq<(Seq<char>, usize)>
    decreases n,
{
    if n <= 0 {
        Seq::empty()
    } else {
        match word_at(line, n - 1) {
            Some(word) => numeric_words_of(line, n - 1).push((word, (n - 1) as usize)),
            None => numeric_words_of(line, n - 1),
        }
    }
}

/// The numeric characters before place `n` of the line, each with its place,
/// in the order of their places.
pub open spec fn numeric_chars_of(line: Seq<char>, n: int) -> Seq<NumericChar>
    decreases n,
{
    if n <= 0 {
        Seq::empty()
    } else if numeric(line[n - 1]) {
        numeric_chars_of(line, n - 1).push((line[n - 1], (n - 1) as usize))
    } else {
        numeric_chars_of(line, n - 1)
    }
}

/// Whether the word `word` stands in the line from place `i` on.
fn is_at(line: &[char], i: usize, word: &str) -> (b: bool)
    requires
        i <= line@.len(),
    ensures
        b == stands_at(line@, i as int, word@),
{
    let w = to_chars(word);
    if w.len() > line.len() - i {
        return false;
    }
    let piece = crate::text::copy_range(line, i, i + w.len());
    crate::text::same_chars(piece.as_slice(), w.as_slice())
}

/// The digit words of the line, each with the place where it begins, in the
/// order of their places.
pub fn numeric_words(line: &[char]) -> (found: Vec<NumericWord>)
    ensures
        word_views(found@) == numeric_words_of(line@, line@.len() as int),
{
    let mut found: Vec<NumericWord> = Vec::new();
    let mut i: usize = 0;
    while i < line.len()
        invariant
            i <= line@.len(),
            word_views(found@) =~= numeric_words_of(line@, i as int),
        decreases line@.len() - i,
    {
        let ghost before = word_views(found@);
        let word = if is_at(line, i, "one") {
            Some("one")
        } else if is_at(line, i, "two") {
            Some("two")
        } else if is_at(line, i, "three") {
            Some("three")
        } else if is_at(line, i, "four") {
            Some("four")
        } else if is_at(line, i, "five") {
            Some("five")
        } else if is_at(line, i, "six") {
            Some("six")
        } else if is_at(line, i, "seven") {
            Some("seven")
        } else if is_at(line, i, "eight") {
            Some("eight")
        } else if is_at(line, i, "nine") {
            Some("nine")
        } else {
            None
        };
        match word {
            Some(word) => {
                assert(word_at(line@, i as int) == Some(word@));
                let text = String::from_str(word);
                found.push((text, i));
                assert(word_views(found@) =~= before.push((word@, i)));
            },
            None => {},
        }
        i += 1;
    }
    found
}

/// The numeric characters of the line, each with its place, in the order of
/// their places.
pub fn numeric_chars(line: &[char]) -> (found: Vec<NumericChar>)
    ensures
        found@ == numeric_chars_of(line@, line@.len() as int),
{
    let mut found: Vec<NumericChar> = Vec::new();
    let mut i: usize = 0;
    while i < line.len()
        invariant
            i <= line@.len(),
            found@ == numeric_chars_of(line@, i as int),
        decreases line@.len() - i,
    {
        if is_numeric(line[i]) {
            found.push((line[i], i));
        }
        i += 1;
    }
    found
}

/// The calibration value of a line: ten times its first digit plus its last
/// digit, if it has them.
pub open spec fn calibration(line: Seq<char>) -> Option<u8> {
    let words = numeric_words_of(line, line.len() as int);
    let chars = numeric_chars_of(line, line.len() as int);
    match (first_digit(words, chars), last_digit(words, chars)) {
        (Some(first), Some(second)) => Some((first * 10 + second) as u8),
        _ => None,
    }
}

/// The calibration value of the line, if it has one.
pub fn try_parse_number(line: &[char]) -> (n: Option<u8>)
    ensures
        n == calibration(line@),
{
    let words = numeric_words(line);
    let chars = numeric_chars(line);
    let first = find_first_number(words.as_slice(), chars.as_slice());
    let second = find_last_number(words.as_slice(), chars.as_slice());
    match (first, second) {
        (Some(first), Some(second)) => {
            assert(first <= 9 && second <= 9);
            Some(first * 10 + second)
        },
        _ => None,
    }
}

/// The calibration value of the line.
pub fn parse_number(line: &str) -> (n: u8)
    requires
        calibration(line@) is Some,
    ensures
        Some(n) == calibration(line@),
{
    let chars = to_chars(line);
    match try_parse_number(chars.as_slice()) {
        Some(n) => n,
        None => vstd::pervasive::unreached(),
    }
}

/// Whether every line of the text has a calibration value.
pub open spec fn is_calibration_text(s: Seq<char>) -> bool {
    forall|i: int| 0 <= i < lines(s).len() ==> calibration(#[trigger] lines(s)[i]) is Some
}

/// The calibration values of the lines of the text.
pub open spec fn calibrations(s: Seq<char>) -> Seq<u8> {
    Seq::new(lines(s).len(), |i: int| calibration(lines(s)[i]).unwrap())
}

/// The calibration values of the lines of the text, if every line has one.
pub fn try_parse_input(text: &str) -> (values: Option<Vec<u8>>)
    ensures
        values is Some == is_calibration_text(text@),
        values is Some ==> values.unwrap()@ == calibrations(text@),
{
    let chars = to_chars(text);
    let rows = split_lines(chars.as_slice());
    let ghost all = lines(text@);
    let mut values: Vec<u8> = Vec::new();
    let mut i: usize = 0;
    while i < rows.len()
        invariant
            i <= rows@.len(),
            texts(rows@) == all,
            all == lines(text@),
            values@.len() == i,
            forall|k: int| 0 <= k < i ==> calibration(#[trigger] all[k]) == Some(values@[k]),
        decreases rows@.len() - i,
    {
        assert(rows@[i as int]@ == all[i as int]);
        match try_parse_number(rows[i].as_slice()) {
            Some(n) => {
                values.push(n);
            },
            None => {
                return None;
            },
        }
        i += 1;
    }
    assert(values@ =~= calibrations(text@));
    Some(values)
}

/// The calibration values of the lines of the text.
pub fn parse_input(text: &str) -> (values: Vec<u8>)
    requires
        is_calibration_text(text@),
    ensures
        values@ == calibrations(text@),
{
    match try_parse_input(text) {
        Some(values) => values,
        None => vstd::pervasive::unreached(),
    }
}

/// The sum of the numbers.
pub open spec fn sum_of(values: Seq<u8>) -> nat
    decreases values.len(),
{
    if values.len() == 0 {
        0
    } else {
        sum_of(values.drop_last()) + values.last() as nat
    }
}

/// The sum does not get less with more numbers.
proof fn sum_grows(values: Seq<u8>, n: int)
    requires
        0 <= n <= values.len(),
    ensures
        sum_of(values.take(n)) <= sum_of(values),
    decreases values.len() - n,
{
    if n < values.len() {
        sum_grows(values, n + 1);
        assert(values.take(n + 1).drop_last() =~= values.take(n));
    } else {
        assert(values.take(n) =~= values);
    }
}

/// The sum of the calibration values of the lines of the text, if every line
/// has one and the sum is not above `u64::MAX`.
pub fn try_solve(input: &str) -> (sum: Option<u64>)
    ensures
        sum is Some == (is_calibration_text(input@) && sum_of(calibrations(input@)) <= u64::MAX),
        sum is Some ==> sum.unwrap() == sum_of(calibrations(input@)),
{
    let values = match try_parse_input(input) {
        Some(values) => values,
        None => {
            return None;
        },
    };
    let mut sum: u64 = 0;
    let mut i: usize = 0;
    while i < values.len()
        invariant
            i <= values@.len(),
            is_calibration_text(input@),
            values@ == calibrations(input@),
            sum == sum_of(values@.take(i as int)),
        decreases values@.len() - i,
    {
        proof {
            assert(values@.take(i + 1).drop_last() =~= values@.take(i as int));
            sum_grows(values@, i + 1);
        }
        sum = match sum.checked_add(values[i] as u64) {
            Some(sum) => sum,
            None => {
                return None;
            },
        };
        i += 1;
    }
    proof {
        assert(values@.take(values@.len() as int) =~= values@);
    }
    Some(sum)
}

/// The sum of the calibration values of the lines of the text.
pub fn solve(input: &str) -> (sum: u64)
    requires
        is_calibration_text(input@),
        sum_of(calibrations(input@)) <= u64::MAX,
    ensures
        sum == sum_of(calibrations(input@)),
{
    match try_solve(input) {
        Some(sum) => sum,
        None => vstd::pervasive::unreached(),
    }
}

} // verus!
