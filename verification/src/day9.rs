//! Sequences of measurements: the value that follows a sequence, and the one
//! that goes before it, by the differences of its neighbours.
use crate::text::{
    is_signed, lines, parse_signed, signed_value, split_lines, split_words, texts, to_chars, words,
};
use vstd::prelude::*;

verus! {

/// The numbers as mathematical integers.
pub open spec fn ints(v: Seq<i64>) -> Seq<int> {
    Seq::new(v.len(), |i: int| v[i] as int)
}

/// Whether a number can be held in 64 bits.
pub open spec fn fits(x: int) -> bool {
    i64::MIN <= x <= i64::MAX
}

/// Whether all the numbers can be held in 64 bits.
pub open spec fn within(s: Seq<int>) -> bool {
    forall|i: int| 0 <= i < s.len() ==> fits(#[trigger] s[i])
}

/// Whether all the numbers are 0.
pub open spec fn all_zero(s: Seq<int>) -> bool {
    forall|i: int| 0 <= i < s.len() ==> #[trigger] s[i] == 0
}

/// The differences between each number and the one before it.
pub open spec fn differences(s: Seq<int>) -> Seq<int> {
    Seq::new(
        if s.len() > 0 {
            (s.len() - 1) as nat
        } else {
            0
        },
        |i: int| s[i + 1] - s[i],
    )
}

/// The number that follows the sequence: 0 after zeros, and else the last
/// number plus the number that follows the differences.
pub open spec fn forecast(s: Seq<int>) -> int
    decreases s.len(),
{
    if all_zero(s) {
        0
    } else {
        s.last() + forecast(differences(s))
    }
}

/// The number that goes before the sequence: 0 before zeros, and else the first
/// number minus the number that goes before the differences.
pub open spec fn backcast(s: Seq<int>) -> int
    decreases s.len(),
{
    if all_zero(s) {
        0
    } else {
        s.first() - backcast(differences(s))
    }
}

/// `so_far` plus the number that follows the sequence, as far as it can be
/// computed in 64 bits: the differences of all levels and the sums of the last
/// numbers, level by level, must fit.
pub open spec fn checked_forecast(s: Seq<int>, so_far: int) -> Option<int>
    decreases s.len(),
{
    if all_zero(s) {
        Some(so_far)
    } else if !fits(so_far + s.last()) || !within(differences(s)) {
        None
    } else {
        checked_forecast(differences(s), so_far + s.last())
    }
}

/// `so_far` plus or minus the number that goes before the sequence, as far as
/// it can be computed in 64 bits.
pub open spec fn checked_backcast(s: Seq<int>, so_far: int, minus: bool) -> Option<int>
    decreases s.len(),
{
    let next = if minus {
        so_far - s.first()
    } else {
        so_far + s.first()
    };
    if all_zero(s) {
        Some(so_far)
    } else if !fits(next) || !within(differences(s)) {
        None
    } else {
        checked_backcast(differences(s), next, !minus)
    }
}

/// What is computed in 64 bits is the number that follows the sequence.
pub proof fn checked_forecast_is_forecast(s: Seq<int>, so_far: int)
    ensures
        checked_forecast(s, so_far) is Some ==> checked_forecast(s, so_far).unwrap() == so_far
            + forecast(s),
    decreases s.len(),
{
    if !all_zero(s) {
        checked_forecast_is_forecast(differences(s), so_far + s.last());
    }
}

/// What is computed in 64 bits is the number that goes before the sequence.
pub proof fn checked_backcast_is_backcast(s: Seq<int>, so_far: int, minus: bool)
    ensures
        checked_backcast(s, so_far, minus) is Some ==> checked_backcast(s, so_far, minus).unwrap()
            == if minus {
            so_far - backcast(s)
        } else {
            so_far + backcast(s)
        },
    decreases s.len(),
{
    if !all_zero(s) {
        let next = if minus {
            so_far - s.first()
        } else {
            so_far + s.first()
        };
        checked_backcast_is_backcast(differences(s), next, !minus);
    }
}

/// Whether all the numbers are 0.
fn is_all_zero(v: &Vec<i64>) -> (b: bool)
    ensures
        b == all_zero(ints(v@)),
{
    let mut i: usize = 0;
    while i < v.len()
        invariant
            i <= v@.len(),
            forall|k: int| 0 <= k < i ==> #[trigger] ints(v@)[k] == 0,
        decreases v@.len() - i,
    {
        if v[i] != 0 {
            assert(ints(v@)[i as int] != 0);
            return false;
        }
        i += 1;
    }
    true
}

/// The differences of the numbers, if they all fit in 64 bits.
fn differences_of(v: &Vec<i64>) -> (diff: Option<Vec<i64>>)
    ensures
        diff is Some == within(differences(ints(v@))),
        diff is Some ==> ints(diff.unwrap()@) == differences(ints(v@)),
{
    let ghost all = differences(ints(v@));
    let mut diff: Vec<i64> = Vec::new();
    if v.len() == 0 {
        assert(ints(diff@) =~= all);
        return Some(diff);
    }
    let mut idx: usize = 0;
    while idx < v.len() - 1
        invariant
            v@.len() > 0,
            idx <= v@.len() - 1,
            all == differences(ints(v@)),
            diff@.len() == idx,
            forall|k: int| 0 <= k < idx ==> fits(#[trigger] all[k]) && diff@[k] == all[k],
        decreases v@.len() - idx,
    {
        match v[idx + 1].checked_sub(v[idx]) {
            Some(d) => {
                diff.push(d);
            },
            None => {
                assert(!fits(all[idx as int]));
                return None;
            },
        }
        idx += 1;
    }
    assert(ints(diff@) =~= all);
    Some(diff)
}

/// The number that follows the measures, if it can be computed in 64 bits.
pub fn extrapolate(measure: &Vec<i64>) -> (next: Option<i64>)
    ensures
        next is Some == checked_forecast(ints(measure@), 0) is Some,
        next is Some ==> next.unwrap() == forecast(ints(measure@)),
{
    let mut level: Vec<i64> = Vec::new();
    let mut i: usize = 0;
    while i < measure.len()
        invariant
            i <= measure@.len(),
            level@ =~= measure@.take(i as int),
        decreases measure@.len() - i,
    {
        level.push(measure[i]);
        i += 1;
    }
    assert(level@ =~= measure@);
    let mut sum: i64 = 0;
    loop
        invariant
            checked_forecast(ints(level@), sum as int) == checked_forecast(ints(measure@), 0),
        decreases level@.len(),
    {
        if is_all_zero(&level) {
            proof {
                checked_forecast_is_forecast(ints(measure@), 0);
            }
            return Some(sum);
        }
        assert(level@.len() > 0);
        assert(ints(level@).last() == level@[level@.len() - 1]);
        sum = match sum.checked_add(level[level.len() - 1]) {
            Some(s) => s,
            None => {
                return None;
            },
        };
        level = match differences_of(&level) {
            Some(diff) => diff,
            None => {
                return None;
            },
        };
    }
}

/// The number that goes before the measures, if it can be computed in 64 bits.
pub fn extrapolate_back(measure: &Vec<i64>) -> (before: Option<i64>)
    ensures
        before is Some == checked_backcast(ints(measure@), 0, false) is Some,
        before is Some ==> before.unwrap() == backcast(ints(measure@)),
{
    let mut level: Vec<i64> = Vec::new();
    let mut i: usize = 0;
    while i < measure.len()
        invariant
            i <= measure@.len(),
            level@ =~= measure@.take(i as int),
        decreases measure@.len() - i,
    {
        level.push(measure[i]);
        i += 1;
    }
    assert(level@ =~= measure@);
    let mut sum: i64 = 0;
    let mut minus: bool = false;
    loop
        invariant
            checked_backcast(ints(level@), sum as int, minus) == checked_backcast(
                ints(measure@),
                0,
                false,
            ),
        decreases level@.len(),
    {
        if is_all_zero(&level) {
            proof {
                checked_backcast_is_backcast(ints(measure@), 0, false);
            }
            return Some(sum);
        }
        assert(level@.len() > 0);
        assert(ints(level@).first() == level@[0]);
        let next = if minus {
            sum.checked_sub(level[0])
        } else {
            sum.checked_add(level[0])
        };
        sum = match next {
            Some(s) => s,
            None => {
                return None;
            },
        };
        level = match differences_of(&level) {
            Some(diff) => diff,
            None => {
                return None;
            },
        };
        minus = !minus;
    }
}

/// The numbers among the words: the words that stand for a signed number of 64
/// bits, as numbers; other words are passed over.
pub open spec fn readings(tokens: Seq<Seq<char>>) -> Seq<int>
    decreases tokens.len(),
{
    if tokens.len() == 0 {
        Seq::empty()
    } else if is_signed(tokens.last()) {
        readings(tokens.drop_last()).push(signed_value(tokens.last()))
    } else {
        readings(tokens.drop_last())
    }
}

/// The measures that a line of text shows.
pub open spec fn measures_of_line(line: Seq<char>) -> Seq<int> {
    readings(words(line, ' '))
}

/// The measures that the line shows.
pub fn parse_measures(line: &[char]) -> (measure: Vec<i64>)
    ensures
        ints(measure@) == measures_of_line(line@),
{
    let tokens = split_words(line, ' ');
    let ghost all = texts(tokens@);
    let mut measure: Vec<i64> = Vec::new();
    let mut i: usize = 0;
    while i < tokens.len()
        invariant
            i <= tokens@.len(),
            all == texts(tokens@),
            ints(measure@) =~= readings(all.take(i as int)),
        decreases tokens@.len() - i,
    {
        proof {
            assert(all.take(i + 1).drop_last() =~= all.take(i as int));
            assert(all.take(i + 1).last() == tokens@[i as int]@);
        }
        let ghost before = ints(measure@);
        match parse_signed(tokens[i].as_slice()) {
            Some(value) => {
                measure.push(value);
                assert(ints(measure@) =~= before.push(value as int));
            },
            None => {},
        }
        i += 1;
    }
    proof {
        assert(all.take(tokens@.len() as int) =~= all);
    }
    measure
}

/// What a line adds to the answer: the number that follows its measures, or
/// with `back` the number that goes before them. There is none where the
/// measures do not differ from one to the next, or where the number cannot be
/// computed in 64 bits.
pub open spec fn value_of_measures(measure: Seq<int>, back: bool) -> Option<int> {
    if all_zero(differences(measure)) {
        None
    } else if back {
        checked_backcast(measure, 0, false)
    } else {
        checked_forecast(measure, 0)
    }
}

/// The sum of the values, if every one of them is there and every sum on the
/// way, from the first value on, fits in 64 bits.
pub open spec fn checked_total(values: Seq<Option<int>>) -> Option<int>
    decreases values.len(),
{
    if values.len() == 0 {
        Some(0)
    } else {
        match (checked_total(values.drop_last()), values.last()) {
            (Some(sum), Some(value)) => if fits(sum + value) {
                Some(sum + value)
            } else {
                None
            },
            _ => None,
        }
    }
}

/// The values that the lines of the text add to the answer.
pub open spec fn values_of_text(s: Seq<char>, back: bool) -> Seq<Option<int>> {
    Seq::new(lines(s).len(), |i: int| value_of_measures(measures_of_line(lines(s)[i]), back))
}

/// The answer for a text: the sum of the numbers that follow the measures of
/// its lines, or with `back` of those that go before them.
pub open spec fn answer_of_text(s: Seq<char>, back: bool) -> Option<int> {
    checked_total(values_of_text(s, back))
}

/// What the measures add to the answer.
fn value_of(measure: &Vec<i64>, back: bool) -> (value: Option<i64>)
    ensures
        value is Some == value_of_measures(ints(measure@), back) is Some,
        value is Some ==> value.unwrap() == value_of_measures(ints(measure@), back).unwrap(),
{
    let steady = match differences_of(measure) {
        Some(diff) => is_all_zero(&diff),
        None => {
            assert(!all_zero(differences(ints(measure@)))) by {
                let d = differences(ints(measure@));
                let i = choose|i: int| 0 <= i < d.len() && !fits(#[trigger] d[i]);
                assert(d[i] != 0);
            }
            false
        },
    };
    if steady {
        return None;
    }
    proof {
        checked_forecast_is_forecast(ints(measure@), 0);
        checked_backcast_is_backcast(ints(measure@), 0, false);
    }
    if back {
        extrapolate_back(measure)
    } else {
        extrapolate(measure)
    }
}

/// The answer for the text, if there is one.
fn answer(input: &str, back: bool) -> (sum: Option<i64>)
    ensures
        sum is Some == answer_of_text(input@, back) is Some,
        sum is Some ==> sum.unwrap() == answer_of_text(input@, back).unwrap(),
{
    let chars = to_chars(input);
    let rows = split_lines(chars.as_slice());
    let ghost values = values_of_text(input@, back);
    let mut sum: i64 = 0;
    let mut i: usize = 0;
    while i < rows.len()
        invariant
            i <= rows@.len(),
            texts(rows@) == lines(input@),
            values == values_of_text(input@, back),
            checked_total(values.take(i as int)) == Some(sum as int),
        decreases rows@.len() - i,
    {
        assert(rows@[i as int]@ == lines(input@)[i as int]);
        let measure = parse_measures(rows[i].as_slice());
        proof {
            assert(values.take(i + 1).drop_last() =~= values.take(i as int));
            assert(values.take(i + 1).last() == values[i as int]);
            total_needs_every_part(values, i + 1);
        }
        let value = match value_of(&measure, back) {
            Some(value) => value,
            None => {
                return None;
            },
        };
        sum = match sum.checked_add(value) {
            Some(sum) => sum,
            None => {
                return None;
            },
        };
        i += 1;
    }
    proof {
        assert(values.take(rows@.len() as int) =~= values);
    }
    Some(sum)
}

/// Where the sum of the first `n` values cannot be had, the sum of all cannot.
proof fn total_needs_every_part(values: Seq<Option<int>>, n: int)
    requires
        0 <= n <= values.len(),
    ensures
        checked_total(values.take(n)) is None ==> checked_total(values) is None,
    decreases values.len() - n,
{
    if n < values.len() {
        total_needs_every_part(values, n + 1);
        assert(values.take(n + 1).drop_last() =~= values.take(n));
    } else {
        assert(values.take(n) =~= values);
    }
}

/// The sum of the numbers that follow the measures of the lines, if there is one.
pub fn try_solve_part1(input: &str) -> (sum: Option<i64>)
    ensures
        sum is Some == answer_of_text(input@, false) is Some,
        sum is Some ==> sum.unwrap() == answer_of_text(input@, false).unwrap(),
{
    answer(input, false)
}

/// The sum of the numbers that go before the measures of the lines, if there is one.
pub fn try_solve_part2(input: &str) -> (sum: Option<i64>)
    ensures
        sum is Some == answer_of_text(input@, true) is Some,
        sum is Some ==> sum.unwrap() == answer_of_text(input@, true).unwrap(),
{
    answer(input, true)
}

/// The sum of the numbers that follow the measures of the lines.
pub fn solve_part1(input: &str) -> (sum: i64)
    requires
        answer_of_text(input@, false) is Some,
    ensures
        sum == answer_of_text(input@, false).unwrap(),
{
    match answer(input, false) {
        Some(sum) => sum,
        None => vstd::pervasive::unreached(),
    }
}

/// The sum of the numbers that go before the measures of the lines.
pub fn solve_part2(input: &str) -> (sum: i64)
    requires
        answer_of_text(input@, true) is Some,
    ensures
        sum == answer_of_text(input@, true).unwrap(),
{
    match answer(input, true) {
        Some(sum) => sum,
        None => vstd::pervasive::unreached(),
    }
}

/// The answer of a text is the sum of what its lines add to it: of the numbers
/// that follow their measures, or of those that go before them.
pub proof fn total_is_sum_of_casts(values: Seq<Option<int>>, measures: Seq<Seq<int>>, back: bool)
    requires
        values.len() == measures.len(),
        forall|i: int|
            0 <= i < values.len() ==> #[trigger] values[i] == value_of_measures(measures[i], back),
        checked_total(values) is Some,
    ensures
        checked_total(values).unwrap() == sum_of_casts(measures, back),
    decreases values.len(),
{
    if values.len() > 0 {
        total_is_sum_of_casts(values.drop_last(), measures.drop_last(), back);
        checked_forecast_is_forecast(measures.last(), 0);
        checked_backcast_is_backcast(measures.last(), 0, false);
        assert(values.last() == value_of_measures(measures.last(), back));
    }
}

/// The sum over the sequences of the number that follows each, or with `back`
/// of the number that goes before each.
pub open spec fn sum_of_casts(measures: Seq<Seq<int>>, back: bool) -> int
    decreases measures.len(),
{
    if measures.len() == 0 {
        0
    } else {
        sum_of_casts(measures.drop_last(), back) + if back {
            backcast(measures.last())
        } else {
            forecast(measures.last())
        }
    }
}

} // verus!
