//! Boat races: the ways of holding the button that beat the record distance.
use crate::text::{
    is_unsigned, lines, parse_unsigned, split_lines, split_words, texts, to_chars, unsigned_value,
    words,
};
use vstd::prelude::*;

verus! {

/// A race: the record distance and the time that the race lasts.
#[derive(PartialEq, Eq, Structural, Clone, Copy, Debug)]
pub struct Race {
    pub distance: u64,
    pub duration: u64,
}

impl From<(u64, u64)> for Race {
    /// The race with the given record distance and duration, in this order.
    fn from(pair: (u64, u64)) -> (race: Race) {
        Race { distance: pair.0, duration: pair.1 }
    }
}

impl vstd::std_specs::convert::FromSpecImpl<(u64, u64)> for Race {
    open spec fn obeys_from_spec() -> bool {
        true
    }

    open spec fn from_spec(pair: (u64, u64)) -> Race {
        Race { distance: pair.0, duration: pair.1 }
    }
}

/// Whether holding the button for `hold` beats the record of the race: the
/// boat then travels at speed `hold` for the rest of the time.
pub open spec fn wins(race: Race, hold: int) -> bool {
    race.distance < hold * (race.duration - hold)
}

/// The number of holds from 1 to `upto` that beat the record.
pub open spec fn wins_upto(race: Race, upto: int) -> nat
    decreases upto,
{
    if upto <= 0 {
        0
    } else {
        wins_upto(race, upto - 1) + if wins(race, upto) {
            1nat
        } else {
            0nat
        }
    }
}

/// The number of ways to beat the record of the race.
pub open spec fn ways(race: Race) -> nat {
    wins_upto(race, race.duration as int)
}

/// The product of the numbers of ways to beat the records of the races.
pub open spec fn ways_product(races: Seq<Race>) -> nat
    decreases races.len(),
{
    if races.len() == 0 {
        1
    } else {
        ways_product(races.drop_last()) * ways(races.last())
    }
}

/// Whether holding the button for `hold` beats the record of the race.
fn beats(race: &Race, hold: u64) -> (b: bool)
    requires
        hold <= race.duration,
    ensures
        b == wins(*race, hold as int),
{
    let velocity = hold as u128;
    let rest = (race.duration - hold) as u128;
    assert(velocity * rest <= u64::MAX * u64::MAX) by (nonlinear_arith)
        requires
            0 <= velocity <= u64::MAX,
            0 <= rest <= u64::MAX,
    ;
    (race.distance as u128) < velocity * rest
}

/// The number of ways to beat the record of the race.
fn count_ways(race: &Race) -> (count: u64)
    ensures
        count == ways(*race),
{
    let mut count: u64 = 0;
    let mut hold: u64 = 0;
    while hold < race.duration
        invariant
            hold <= race.duration,
            count <= hold,
            count == wins_upto(*race, hold as int),
        decreases race.duration - hold,
    {
        hold += 1;
        if beats(race, hold) {
            count += 1;
        }
    }
    count
}

/// There are no more ways to beat a record than there are holds.
proof fn ways_are_holds(race: Race, upto: int)
    ensures
        wins_upto(race, upto) <= if upto > 0 {
            upto
        } else {
            0
        },
    decreases upto,
{
    if upto > 0 {
        ways_are_holds(race, upto - 1);
    }
}

/// The product of the numbers of ways to beat the records of the races, unless
/// it is above `u64::MAX`.
pub fn try_solve_part1(races: Vec<Race>) -> (product: Option<u64>)
    ensures
        product is Some == (ways_product(races@) <= u64::MAX),
        product is Some ==> product.unwrap() == ways_product(races@),
{
    let mut i: usize = 0;
    while i < races.len()
        invariant
            i <= races@.len(),
            forall|k: int| 0 <= k < i ==> ways(#[trigger] races@[k]) > 0,
        decreases races@.len() - i,
    {
        if count_ways(&races[i]) == 0 {
            proof {
                no_way_gives_no_product(races@, i as int);
            }
            return Some(0);
        }
        i += 1;
    }
    let mut result: u64 = 1;
    let mut i: usize = 0;
    while i < races.len()
        invariant
            i <= races@.len(),
            forall|k: int| 0 <= k < races@.len() ==> ways(#[trigger] races@[k]) > 0,
            result == ways_product(races@.take(i as int)),
        decreases races@.len() - i,
    {
        let count = count_ways(&races[i]);
        proof {
            assert(races@.take(i + 1).drop_last() =~= races@.take(i as int));
            product_grows(races@, i + 1);
        }
        result = match result.checked_mul(count) {
            Some(product) => product,
            None => {
                return None;
            },
        };
        i += 1;
    }
    proof {
        assert(races@.take(races@.len() as int) =~= races@);
    }
    Some(result)
}

/// Where one race cannot be won, the product is 0.
proof fn no_way_gives_no_product(races: Seq<Race>, at: int)
    requires
        0 <= at < races.len(),
        ways(races[at]) == 0,
    ensures
        ways_product(races) == 0,
    decreases races.len(),
{
    if at < races.len() - 1 {
        no_way_gives_no_product(races.drop_last(), at);
        assert(0 * ways(races.last()) == 0);
    } else {
        assert(ways_product(races.drop_last()) * 0 == 0) by (nonlinear_arith);
    }
}

/// Where every race can be won, the product of the first `n` races is positive
/// and not above the product of all.
proof fn product_grows(races: Seq<Race>, n: int)
    requires
        0 <= n <= races.len(),
        forall|k: int| 0 <= k < races.len() ==> ways(#[trigger] races[k]) > 0,
    ensures
        0 < ways_product(races.take(n)) <= ways_product(races),
    decreases races.len() - n,
{
    if n == races.len() {
        assert(races.take(n) =~= races);
        positive_product(races);
    } else {
        product_grows(races, n + 1);
        assert(races.take(n + 1).drop_last() =~= races.take(n));
        let a = ways_product(races.take(n));
        let b = ways(races[n]);
        positive_product(races.take(n));
        assert(a <= a * b) by (nonlinear_arith)
            requires
                a > 0,
                b > 0,
        ;
    }
}

proof fn positive_product(races: Seq<Race>)
    requires
        forall|k: int| 0 <= k < races.len() ==> ways(#[trigger] races[k]) > 0,
    ensures
        ways_product(races) > 0,
    decreases races.len(),
{
    if races.len() > 0 {
        positive_product(races.drop_last());
        let a = ways_product(races.drop_last());
        let b = ways(races.last());
        assert(a * b > 0) by (nonlinear_arith)
            requires
                a > 0,
                b > 0,
        ;
    }
}

/// The product of the numbers of ways to beat the records of the races.
pub fn solve_part1(races: Vec<Race>) -> (product: u64)
    requires
        ways_product(races@) <= u64::MAX,
    ensures
        product == ways_product(races@),
{
    match try_solve_part1(races) {
        Some(product) => product,
        None => vstd::pervasive::unreached(),
    }
}

/// Whether the race can be won with a hold that is shorter than the race.
pub open spec fn can_be_won(race: Race) -> bool {
    exists|hold: int| 1 <= hold < race.duration && wins(race, hold)
}

/// Whether `low` is the shortest and `high` the longest of the holds, shorter
/// than the race, that beat the record.
pub open spec fn is_winning_range(race: Race, low: int, high: int) -> bool {
    &&& 1 <= low <= high < race.duration
    &&& wins(race, low)
    &&& wins(race, high)
    &&& forall|hold: int| 1 <= hold < low ==> !wins(race, hold)
    &&& forall|hold: int| high < hold < race.duration ==> !wins(race, hold)
}

/// The number of holds from the shortest to the longest that beats the record,
/// if any hold shorter than the race does.
pub fn try_solve_part2(race: Race) -> (holds: Option<u64>)
    ensures
        holds is Some == can_be_won(race),
        holds is Some ==> exists|low: int, high: int|
            is_winning_range(race, low, high) && holds.unwrap() == high - low + 1,
{
    let mut low: u64 = 1;
    while low < race.duration && !beats(&race, low)
        invariant
            1 <= low,
            forall|hold: int| 1 <= hold < low ==> !wins(race, hold),
        decreases race.duration - low,
    {
        low += 1;
    }
    if low >= race.duration {
        return None;
    }
    let mut high: u64 = race.duration - 1;
    while high > low && !beats(&race, high)
        invariant
            low <= high < race.duration,
            forall|hold: int| high < hold < race.duration ==> !wins(race, hold),
        decreases high,
    {
        high -= 1;
    }
    assert(is_winning_range(race, low as int, high as int));
    Some(high - low + 1)
}

/// The number of holds from the shortest to the longest that beats the record.
pub fn solve_part2(race: Race) -> (holds: u64)
    requires
        can_be_won(race),
    ensures
        exists|low: int, high: int| is_winning_range(race, low, high) && holds == high - low + 1,
{
    match try_solve_part2(race) {
        Some(holds) => holds,
        None => vstd::pervasive::unreached(),
    }
}

/// The words that stand for a number that is not above `max`, in order; other
/// words are passed over.
pub open spec fn number_words(tokens: Seq<Seq<char>>, max: nat) -> Seq<Seq<char>>
    decreases tokens.len(),
{
    if tokens.len() == 0 {
        tokens
    } else if is_unsigned(tokens.last(), max) {
        number_words(tokens.drop_last(), max).push(tokens.last())
    } else {
        number_words(tokens.drop_last(), max)
    }
}

/// The numbers of a line: those of its words that stand for a number of 64 bits.
pub open spec fn numbers_of_line(line: Seq<char>) -> Seq<u64> {
    let found = number_words(words(line, ' '), u64::MAX as nat);
    Seq::new(found.len(), |i: int| unsigned_value(found[i]) as u64)
}

/// The words of the line that stand for a number that is not above `max`.
fn find_number_words(line: &[char], max: u64) -> (found: Vec<Vec<char>>)
    ensures
        texts(found@) == number_words(words(line@, ' '), max as nat),
{
    let tokens = split_words(line, ' ');
    let ghost all = texts(tokens@);
    let mut found: Vec<Vec<char>> = Vec::new();
    let mut i: usize = 0;
    while i < tokens.len()
        invariant
            i <= tokens@.len(),
            all == texts(tokens@),
            texts(found@) =~= number_words(all.take(i as int), max as nat),
        decreases tokens@.len() - i,
    {
        proof {
            assert(all.take(i + 1).drop_last() =~= all.take(i as int));
            assert(all.take(i + 1).last() == tokens@[i as int]@);
        }
        if parse_unsigned(tokens[i].as_slice(), max).is_some() {
            let token = crate::text::copy_range(tokens[i].as_slice(), 0, tokens[i].len());
            assert(token@ =~= tokens@[i as int]@);
            let ghost before = texts(found@);
            found.push(token);
            assert(texts(found@) =~= before.push(token@));
        }
        i += 1;
    }
    proof {
        assert(all.take(tokens@.len() as int) =~= all);
    }
    found
}

/// The numbers of the line.
fn parse_line_numbers(line: &[char]) -> (numbers: Vec<u64>)
    ensures
        numbers@ == numbers_of_line(line@),
{
    let found = find_number_words(line, u64::MAX);
    let ghost all = texts(found@);
    let mut numbers: Vec<u64> = Vec::new();
    let mut i: usize = 0;
    while i < found.len()
        invariant
            i <= found@.len(),
            all == texts(found@),
            all == number_words(words(line@, ' '), u64::MAX as nat),
            numbers@.len() == i,
            forall|k: int| 0 <= k < i ==> #[trigger] numbers@[k] == unsigned_value(all[k]),
        decreases found@.len() - i,
    {
        assert(found@[i as int]@ == all[i as int]);
        proof {
            number_words_are_numbers(words(line@, ' '), u64::MAX as nat, i as int);
        }
        let value = match parse_unsigned(found[i].as_slice(), u64::MAX) {
            Some(value) => value,
            None => vstd::pervasive::unreached(),
        };
        numbers.push(value);
        i += 1;
    }
    assert(numbers@ =~= numbers_of_line(line@));
    numbers
}

/// The words that were kept stand for numbers.
proof fn number_words_are_numbers(tokens: Seq<Seq<char>>, max: nat, i: int)
    requires
        0 <= i < number_words(tokens, max).len(),
    ensures
        is_unsigned(number_words(tokens, max)[i], max),
    decreases tokens.len(),
{
    if tokens.len() > 0 {
        let before = number_words(tokens.drop_last(), max);
        if i < before.len() {
            number_words_are_numbers(tokens.drop_last(), max, i);
        }
    }
}

/// Whether the text shows races: a line of times and a line of distances, with
/// a distance for each time.
pub open spec fn is_races_text(s: Seq<char>) -> bool {
    lines(s).len() >= 2 && numbers_of_line(lines(s)[1]).len() >= numbers_of_line(lines(s)[0]).len()
}

/// The races that the text shows: the numbers of its first line are the
/// times, those of its second line the record distances.
pub open spec fn races_of_text(s: Seq<char>) -> Seq<Race> {
    Seq::new(
        numbers_of_line(lines(s)[0]).len(),
        |i: int|
            Race { distance: numbers_of_line(lines(s)[1])[i], duration: numbers_of_line(lines(s)[0])[i] },
    )
}

/// The races that the text shows, if it shows races.
pub fn parse_races(input: &str) -> (races: Option<Vec<Race>>)
    ensures
        races is Some == is_races_text(input@),
        races is Some ==> races.unwrap()@ == races_of_text(input@),
{
    let chars = to_chars(input);
    let rows = split_lines(chars.as_slice());
    if rows.len() < 2 {
        return None;
    }
    assert(rows@[0]@ == lines(input@)[0]);
    assert(rows@[1]@ == lines(input@)[1]);
    let times = parse_line_numbers(rows[0].as_slice());
    let distances = parse_line_numbers(rows[1].as_slice());
    if distances.len() < times.len() {
        return None;
    }
    let mut races: Vec<Race> = Vec::new();
    let mut index: usize = 0;
    while index < times.len()
        invariant
            index <= times@.len() <= distances@.len(),
            races@.len() == index,
            forall|k: int|
                0 <= k < index ==> #[trigger] races@[k] == (Race {
                    distance: distances@[k],
                    duration: times@[k],
                }),
        decreases times@.len() - index,
    {
        races.push(Race { distance: distances[index], duration: times[index] });
        index += 1;
    }
    assert(races@ =~= races_of_text(input@));
    Some(races)
}

/// The words joined one behind the other.
pub open spec fn joined(tokens: Seq<Seq<char>>) -> Seq<char>
    decreases tokens.len(),
{
    if tokens.len() == 0 {
        Seq::empty()
    } else {
        joined(tokens.drop_last()) + tokens.last()
    }
}

/// The text of the one number of a line: those of its words that stand for a
/// number of 32 bits, joined.
pub open spec fn joined_number(line: Seq<char>) -> Seq<char> {
    joined(number_words(words(line, ' '), u32::MAX as nat))
}

/// Whether the text shows one race: a line for the time and a line for the
/// distance, each with words that, joined, stand for a number of 64 bits.
pub open spec fn is_race_text(s: Seq<char>) -> bool {
    &&& lines(s).len() >= 2
    &&& forall|i: int|
        0 <= i < lines(s).len() ==> is_unsigned(joined_number(#[trigger] lines(s)[i]), u64::MAX as nat)
}

/// The race that the text shows: the joined number of its first line is the
/// time, that of its second line the record distance.
pub open spec fn race_of_text(s: Seq<char>) -> Race {
    Race {
        distance: unsigned_value(joined_number(lines(s)[1])) as u64,
        duration: unsigned_value(joined_number(lines(s)[0])) as u64,
    }
}

/// The one number of the line, if the line has one.
fn parse_joined_number(line: &[char]) -> (number: Option<u64>)
    ensures
        number is Some == is_unsigned(joined_number(line@), u64::MAX as nat),
        number is Some ==> number.unwrap() == unsigned_value(joined_number(line@)),
{
    let found = find_number_words(line, 0xffff_ffff);
    let ghost all = texts(found@);
    let mut text: Vec<char> = Vec::new();
    let mut i: usize = 0;
    while i < found.len()
        invariant
            i <= found@.len(),
            all == texts(found@),
            text@ == joined(all.take(i as int)),
        decreases found@.len() - i,
    {
        proof {
            assert(all.take(i + 1).drop_last() =~= all.take(i as int));
            assert(all.take(i + 1).last() == found@[i as int]@);
        }
        let ghost before = text@;
        let word = &found[i];
        let mut k: usize = 0;
        while k < word.len()
            invariant
                k <= word@.len(),
                text@ =~= before + word@.take(k as int),
            decreases word@.len() - k,
        {
            text.push(word[k]);
            k += 1;
        }
        proof {
            assert(word@.take(word@.len() as int) =~= word@);
        }
        i += 1;
    }
    proof {
        assert(all.take(found@.len() as int) =~= all);
    }
    parse_unsigned(text.as_slice(), u64::MAX)
}

/// The one race that the text shows, if it shows one.
pub fn parse_race(input: &str) -> (race: Option<Race>)
    ensures
        race is Some == is_race_text(input@),
        race is Some ==> race.unwrap() == race_of_text(input@),
{
    let chars = to_chars(input);
    let rows = split_lines(chars.as_slice());
    let ghost all = lines(input@);
    let mut nums: Vec<u64> = Vec::new();
    let mut i: usize = 0;
    while i < rows.len()
        invariant
            i <= rows@.len(),
            texts(rows@) == all,
            all == lines(input@),
            nums@.len() == i,
            forall|k: int|
                0 <= k < i ==> is_unsigned(joined_number(#[trigger] all[k]), u64::MAX as nat),
            forall|k: int|
                0 <= k < i ==> #[trigger] nums@[k] == unsigned_value(joined_number(all[k])),
        decreases rows@.len() - i,
    {
        assert(rows@[i as int]@ == all[i as int]);
        match parse_joined_number(rows[i].as_slice()) {
            Some(number) => {
                nums.push(number);
            },
            None => {
                return None;
            },
        }
        i += 1;
    }
    if nums.len() < 2 {
        return None;
    }
    Some(Race { distance: nums[1], duration: nums[0] })
}

} // verus!
