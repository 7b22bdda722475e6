//! The almanac: seeds are converted step by step, through seven lists of
//! conversion maps, to locations; the answer is the lowest location.
use crate::text::{
    blocks, is_unsigned, keep_non_empty, non_empty, parse_unsigned, split, split_at_char,
    split_blocks, split_words, texts, to_chars, trim, trimmed, unsigned_value, words,
};
use std::ops::Range;
use vstd::prelude::*;

verus! {

#[derive(PartialEq, Eq, Structural, Clone, Copy, Debug)]
pub struct Seed(pub usize);

#[derive(PartialEq, Eq, Structural, Clone, Copy, Debug)]
pub struct Soil(pub usize);

#[derive(PartialEq, Eq, Structural, Clone, Copy, Debug)]
pub struct Fertilizer(pub usize);

#[derive(PartialEq, Eq, Structural, Clone, Copy, Debug)]
pub struct Water(pub usize);

#[derive(PartialEq, Eq, Structural, Clone, Copy, Debug)]
pub struct Light(pub usize);

#[derive(PartialEq, Eq, Structural, Clone, Copy, Debug)]
pub struct Temperature(pub usize);

#[derive(PartialEq, Eq, Structural, Clone, Copy, Debug)]
pub struct Humidity(pub usize);

#[derive(PartialEq, Eq, Structural, Clone, Copy, Debug)]
pub struct Location(pub usize);

/// Seeds given as ranges of numbers.
#[derive(Debug)]
pub struct RangedSeeds {
    pub ranges: Vec<Range<usize>>,
}

/// One conversion map: the numbers of the source range are converted to the
/// numbers of the destination range, the first to the first, and so on.
#[derive(Debug)]
pub struct ConversionMap {
    pub destination: Range<usize>,
    pub source: Range<usize>,
}

/// Whether the source range of the map holds `x`.
pub open spec fn holds(map: ConversionMap, x: int) -> bool {
    map.source.start <= x < map.source.end
}

/// The index of the first of the maps whose source range holds `x`, if there
/// is one.
pub open spec fn first_match(maps: Seq<ConversionMap>, x: int) -> Option<int>
    decreases maps.len(),
{
    if maps.len() == 0 {
        None
    } else if first_match(maps.drop_last(), x) is Some {
        first_match(maps.drop_last(), x)
    } else if holds(maps.last(), x) {
        Some(maps.len() - 1)
    } else {
        None
    }
}

/// The number to which the maps convert `x`: the first map whose source range
/// holds `x` converts it; a number that no map converts stays as it is.
pub open spec fn converted(maps: Seq<ConversionMap>, x: int) -> int {
    match first_match(maps, x) {
        Some(i) => maps[i].destination.start + (x - maps[i].source.start),
        None => x,
    }
}

/// The index of a match is an index of the maps, and the map there holds `x`.
pub proof fn first_match_is_a_match(maps: Seq<ConversionMap>, x: int)
    ensures
        first_match(maps, x) is Some ==> {
            let i = first_match(maps, x).unwrap();
            &&& 0 <= i < maps.len()
            &&& holds(maps[i], x)
            &&& forall|k: int| 0 <= k < i ==> !holds(#[trigger] maps[k], x)
        },
        first_match(maps, x) is None ==> forall|k: int|
            0 <= k < maps.len() ==> !holds(#[trigger] maps[k], x),
    decreases maps.len(),
{
    if maps.len() > 0 {
        let front = maps.drop_last();
        first_match_is_a_match(front, x);
        if first_match(front, x) is Some {
            let i = first_match(front, x).unwrap();
            assert(front[i] == maps[i]);
            assert forall|k: int| 0 <= k < i implies !holds(#[trigger] maps[k], x) by {
                assert(front[k] == maps[k]);
            }
        } else {
            assert forall|k: int| 0 <= k < maps.len() - 1 implies !holds(#[trigger] maps[k], x) by {
                assert(front[k] == maps[k]);
            }
        }
    }
}

/// The number to which the maps convert `x`, unless it is above `usize::MAX`.
pub fn convert(x: usize, conversion_maps: &[ConversionMap]) -> (y: Option<usize>)
    ensures
        y is Some == (converted(conversion_maps@, x as int) <= usize::MAX),
        y is Some ==> y.unwrap() == converted(conversion_maps@, x as int),
{
    let mut i: usize = 0;
    while i < conversion_maps.len()
        invariant
            i <= conversion_maps@.len(),
            first_match(conversion_maps@.take(i as int), x as int) is None,
        decreases conversion_maps@.len() - i,
    {
        let conversion_map = &conversion_maps[i];
        proof {
            assert(conversion_maps@.take(i + 1).drop_last() =~= conversion_maps@.take(i as int));
            assert(conversion_maps@.take(i + 1).last() == conversion_maps@[i as int]);
        }
        if conversion_map.source.start <= x && x < conversion_map.source.end {
            proof {
                match_stays(conversion_maps@, x as int, i + 1);
            }
            let idx = x - conversion_map.source.start;
            return conversion_map.destination.start.checked_add(idx);
        }
        i += 1;
    }
    proof {
        assert(conversion_maps@.take(conversion_maps@.len() as int) =~= conversion_maps@);
    }
    Some(x)
}

/// A match among the first `n` maps is the match among all maps.
proof fn match_stays(maps: Seq<ConversionMap>, x: int, n: int)
    requires
        0 <= n <= maps.len(),
        first_match(maps.take(n), x) is Some,
    ensures
        first_match(maps, x) == first_match(maps.take(n), x),
    decreases maps.len() - n,
{
    if n < maps.len() {
        assert(maps.take(n + 1).drop_last() =~= maps.take(n));
        match_stays(maps, x, n + 1);
    } else {
        assert(maps.take(n) =~= maps);
    }
}

/// A number of one kind that the maps convert to a number of the kind `T`.
pub trait ConvertTo<T> {
    /// The number that is converted.
    spec fn number(&self) -> usize;

    /// The number of what comes out.
    spec fn number_of(made: &T) -> usize;

    /// Converts the number by the maps.
    fn convert_to(&self, conversion_maps: &[ConversionMap]) -> (made: T)
        requires
            converted(conversion_maps@, self.number() as int) <= usize::MAX,
        ensures
            Self::number_of(&made) == converted(conversion_maps@, self.number() as int),
    ;
}

impl ConvertTo<Soil> for Seed {
    open spec fn number(&self) -> usize {
        self.0
    }

    open spec fn number_of(made: &Soil) -> usize {
        made.0
    }

    fn convert_to(&self, conversion_maps: &[ConversionMap]) -> (made: Soil) {
        match convert(self.0, conversion_maps) {
            Some(y) => Soil(y),
            None => vstd::pervasive::unreached(),
        }
    }
}

impl ConvertTo<Fertilizer> for Soil {
    open spec fn number(&self) -> usize {
        self.0
    }

    open spec fn number_of(made: &Fertilizer) -> usize {
        made.0
    }

    fn convert_to(&self, conversion_maps: &[ConversionMap]) -> (made: Fertilizer) {
        match convert(self.0, conversion_maps) {
            Some(y) => Fertilizer(y),
            None => vstd::pervasive::unreached(),
        }
    }
}

impl ConvertTo<Water> for Fertilizer {
    open spec fn number(&self) -> usize {
        self.0
    }

    open spec fn number_of(made: &Water) -> usize {
        made.0
    }

    fn convert_to(&self, conversion_maps: &[ConversionMap]) -> (made: Water) {
        match convert(self.0, conversion_maps) {
            Some(y) => Water(y),
            None => vstd::pervasive::unreached(),
        }
    }
}

impl ConvertTo<Light> for Water {
    open spec fn number(&self) -> usize {
        self.0
    }

    open spec fn number_of(made: &Light) -> usize {
        made.0
    }

    fn convert_to(&self, conversion_maps: &[ConversionMap]) -> (made: Light) {
        match convert(self.0, conversion_maps) {
            Some(y) => Light(y),
            None => vstd::pervasive::unreached(),
        }
    }
}

impl ConvertTo<Temperature> for Light {
    open spec fn number(&self) -> usize {
        self.0
    }

    open spec fn number_of(made: &Temperature) -> usize {
        made.0
    }

    fn convert_to(&self, conversion_maps: &[ConversionMap]) -> (made: Temperature) {
        match convert(self.0, conversion_maps) {
            Some(y) => Temperature(y),
            None => vstd::pervasive::unreached(),
        }
    }
}

impl ConvertTo<Humidity> for Temperature {
    open spec fn number(&self) -> usize {
        self.0
    }

    open spec fn number_of(made: &Humidity) -> usize {
        made.0
    }

    fn convert_to(&self, conversion_maps: &[ConversionMap]) -> (made: Humidity) {
        match convert(self.0, conversion_maps) {
            Some(y) => Humidity(y),
            None => vstd::pervasive::unreached(),
        }
    }
}

impl ConvertTo<Location> for Humidity {
    open spec fn number(&self) -> usize {
        self.0
    }

    open spec fn number_of(made: &Location) -> usize {
        made.0
    }

    fn convert_to(&self, conversion_maps: &[ConversionMap]) -> (made: Location) {
        match convert(self.0, conversion_maps) {
            Some(y) => Location(y),
            None => vstd::pervasive::unreached(),
        }
    }
}

/// The lists of maps as sequences.
pub open spec fn map_lists(lists: Seq<Vec<ConversionMap>>) -> Seq<Seq<ConversionMap>> {
    Seq::new(lists.len(), |i: int| lists[i]@)
}

/// The number `x` after the first `n` lists of maps have converted it in turn,
/// if none of the numbers on the way is above `usize::MAX`.
pub open spec fn passed(lists: Seq<Seq<ConversionMap>>, x: int, n: int) -> Option<int>
    decreases n,
{
    if n <= 0 {
        Some(x)
    } else {
        match passed(lists, x, n - 1) {
            Some(y) => if converted(lists[n - 1], y) <= usize::MAX {
                Some(converted(lists[n - 1], y))
            } else {
                None
            },
            None => None,
        }
    }
}

/// The location of a seed: its number after the seven lists of maps have
/// converted it in turn.
pub open spec fn location_of(lists: Seq<Seq<ConversionMap>>, seed: Seed) -> Option<int> {
    passed(lists, seed.0 as int, 7)
}

/// The lowest of the locations of the seeds, if every seed has a location.
pub open spec fn lowest_location(seeds: Seq<Seed>, lists: Seq<Seq<ConversionMap>>) -> Option<int>
    decreases seeds.len(),
{
    if seeds.len() == 0 {
        None
    } else if seeds.len() == 1 {
        location_of(lists, seeds[0])
    } else {
        match (lowest_location(seeds.drop_last(), lists), location_of(lists, seeds.last())) {
            (Some(low), Some(here)) => if here < low {
                Some(here)
            } else {
                Some(low)
            },
            _ => None,
        }
    }
}

/// The location of the seed, if it has one.
fn locate(seed: &Seed, conversion_maps: &[Vec<ConversionMap>]) -> (location: Option<usize>)
    requires
        conversion_maps@.len() >= 7,
    ensures
        location is Some == location_of(map_lists(conversion_maps@), *seed) is Some,
        location is Some ==> location.unwrap() == location_of(
            map_lists(conversion_maps@),
            *seed,
        ).unwrap(),
{
    let ghost lists = map_lists(conversion_maps@);
    let mut value: usize = seed.0;
    let mut i: usize = 0;
    while i < 7
        invariant
            i <= 7,
            conversion_maps@.len() >= 7,
            lists == map_lists(conversion_maps@),
            passed(lists, seed.0 as int, i as int) == Some(value as int),
        decreases 7 - i,
    {
        proof {
            passing_needs_every_step(lists, seed.0 as int, i + 1, 7);
        }
        value = match convert(value, conversion_maps[i].as_slice()) {
            Some(next) => next,
            None => {
                return None;
            },
        };
        i += 1;
    }
    Some(value)
}

/// Where a number cannot pass the first `n` lists, it cannot pass more.
proof fn passing_needs_every_step(lists: Seq<Seq<ConversionMap>>, x: int, n: int, m: int)
    requires
        0 <= n <= m,
    ensures
        passed(lists, x, n) is None ==> passed(lists, x, m) is None,
    decreases m - n,
{
    if n < m {
        passing_needs_every_step(lists, x, n, m - 1);
    }
}

/// The lowest of the locations of the seeds, if there is a seed and every seed
/// has a location.
pub fn try_calculate_location(seeds: &[Seed], conversion_maps: &[Vec<ConversionMap>]) -> (lowest:
    Option<usize>)
    requires
        conversion_maps@.len() >= 7,
    ensures
        lowest is Some == lowest_location(seeds@, map_lists(conversion_maps@)) is Some,
        lowest is Some ==> lowest.unwrap() == lowest_location(
            seeds@,
            map_lists(conversion_maps@),
        ).unwrap(),
{
    if seeds.len() == 0 {
        return None;
    }
    let ghost lists = map_lists(conversion_maps@);
    let mut lowest = match locate(&seeds[0], conversion_maps) {
        Some(location) => location,
        None => {
            proof {
                lowest_needs_every_seed(seeds@, lists, 1);
                assert(seeds@.take(1).len() == 1);
            }
            return None;
        },
    };
    let mut i: usize = 1;
    proof {
        assert(seeds@.take(1).len() == 1);
    }
    while i < seeds.len()
        invariant
            1 <= i <= seeds@.len(),
            conversion_maps@.len() >= 7,
            lists == map_lists(conversion_maps@),
            lowest_location(seeds@.take(i as int), lists) == Some(lowest as int),
        decreases seeds@.len() - i,
    {
        proof {
            assert(seeds@.take(i + 1).drop_last() =~= seeds@.take(i as int));
            assert(seeds@.take(i + 1).last() == seeds@[i as int]);
            lowest_needs_every_seed(seeds@, lists, i + 1);
        }
        match locate(&seeds[i], conversion_maps) {
            Some(location) => {
                if location < lowest {
                    lowest = location;
                }
            },
            None => {
                return None;
            },
        }
        i += 1;
    }
    proof {
        assert(seeds@.take(seeds@.len() as int) =~= seeds@);
    }
    Some(lowest)
}

/// Where the first `n` seeds have no lowest location, all the seeds have none.
proof fn lowest_needs_every_seed(seeds: Seq<Seed>, lists: Seq<Seq<ConversionMap>>, n: int)
    requires
        1 <= n <= seeds.len(),
    ensures
        lowest_location(seeds.take(n), lists) is None ==> lowest_location(seeds, lists) is None,
    decreases seeds.len() - n,
{
    if n < seeds.len() {
        lowest_needs_every_seed(seeds, lists, n + 1);
        assert(seeds.take(n + 1).drop_last() =~= seeds.take(n));
    } else {
        assert(seeds.take(n) =~= seeds);
    }
}

/// The lowest of the locations of the seeds.
pub fn calculate_location(seeds: &[Seed], conversion_maps: &[Vec<ConversionMap>]) -> (lowest: usize)
    requires
        conversion_maps@.len() >= 7,
        lowest_location(seeds@, map_lists(conversion_maps@)) is Some,
    ensures
        lowest == lowest_location(seeds@, map_lists(conversion_maps@)).unwrap(),
{
    match try_calculate_location(seeds, conversion_maps) {
        Some(lowest) => lowest,
        None => vstd::pervasive::unreached(),
    }
}

/// Whether every one of the words stands for a number that is not above
/// `usize::MAX`.
pub open spec fn are_numbers(tokens: Seq<Seq<char>>) -> bool {
    forall|i: int| 0 <= i < tokens.len() ==> is_unsigned(#[trigger] tokens[i], usize::MAX as nat)
}

/// The numbers that the words stand for.
pub open spec fn numbers_of(tokens: Seq<Seq<char>>) -> Seq<usize> {
    Seq::new(tokens.len(), |i: int| unsigned_value(tokens[i]) as usize)
}

/// The numbers that the words of the text stand for, if every word stands for
/// a number that is not above `usize::MAX`.
pub fn parse_numbers(s: &[char]) -> (nums: Option<Vec<usize>>)
    ensures
        nums is Some == are_numbers(words(s@, ' ')),
        nums is Some ==> nums.unwrap()@ == numbers_of(words(s@, ' ')),
{
    let tokens = split_words(s, ' ');
    let ghost all = words(s@, ' ');
    let mut nums: Vec<usize> = Vec::new();
    let mut i: usize = 0;
    while i < tokens.len()
        invariant
            i <= tokens@.len(),
            texts(tokens@) == all,
            all == words(s@, ' '),
            nums@.len() == i,
            forall|k: int| 0 <= k < i ==> is_unsigned(#[trigger] all[k], usize::MAX as nat),
            forall|k: int| 0 <= k < i ==> #[trigger] nums@[k] == unsigned_value(all[k]),
        decreases tokens@.len() - i,
    {
        assert(tokens@[i as int]@ == all[i as int]);
        match parse_unsigned(tokens[i].as_slice(), usize::MAX as u64) {
            Some(value) => {
                nums.push(value as usize);
            },
            None => {
                return None;
            },
        }
        i += 1;
    }
    assert(nums@ =~= numbers_of(all));
    Some(nums)
}

/// Whether the line shows a conversion map: numbers with spaces between them,
/// of which the first three are the start of the destination range, the start
/// of the source range and the length of both, and neither range ends above
/// `usize::MAX`.
pub open spec fn is_map_line(line: Seq<char>) -> bool {
    let tokens = words(trimmed(line), ' ');
    let nums = numbers_of(tokens);
    &&& are_numbers(tokens)
    &&& tokens.len() >= 3
    &&& nums[0] + nums[2] <= usize::MAX
    &&& nums[1] + nums[2] <= usize::MAX
}

/// Start and end of the destination range and of the source range of the
/// conversion map that the line shows.
pub open spec fn map_of_line(line: Seq<char>) -> (int, int, int, int) {
    let nums = numbers_of(words(trimmed(line), ' '));
    (nums[0] as int, nums[0] + nums[2], nums[1] as int, nums[1] + nums[2])
}

/// Whether the map has the given ranges.
pub open spec fn has_ranges(map: ConversionMap, ranges: (int, int, int, int)) -> bool {
    &&& map.destination.start == ranges.0
    &&& map.destination.end == ranges.1
    &&& map.source.start == ranges.2
    &&& map.source.end == ranges.3
}

/// The conversion map that the line shows, if it shows one.
pub fn to_conversion_map(line: &[char]) -> (map: Option<ConversionMap>)
    ensures
        map is Some == is_map_line(line@),
        map is Some ==> has_ranges(map.unwrap(), map_of_line(line@)),
{
    let bare = trim(line);
    let nums = match parse_numbers(bare.as_slice()) {
        Some(nums) => nums,
        None => {
            return None;
        },
    };
    if nums.len() < 3 {
        return None;
    }
    let destination_start = nums[0];
    let source_start = nums[1];
    let len = nums[2];
    let destination_end = match destination_start.checked_add(len) {
        Some(end) => end,
        None => {
            return None;
        },
    };
    let source_end = match source_start.checked_add(len) {
        Some(end) => end,
        None => {
            return None;
        },
    };
    let destination = destination_start..destination_end;
    let source = source_start..source_end;
    Some(ConversionMap { destination, source })
}

/// The parts of a block of the almanac: what stands between its colons, the
/// empty parts left out.
pub open spec fn parts(block: Seq<char>) -> Seq<Seq<char>> {
    non_empty(split(block, ':'))
}

/// The lines of maps of a block: the lines of its second part that are not empty.
pub open spec fn map_lines(block: Seq<char>) -> Seq<Seq<char>> {
    non_empty(split(parts(block)[1], '\n'))
}

/// Whether the block shows a list of conversion maps.
pub open spec fn is_map_block(block: Seq<char>) -> bool {
    parts(block).len() >= 2 && forall|i: int|
        0 <= i < map_lines(block).len() ==> is_map_line(#[trigger] map_lines(block)[i])
}

/// The list of conversion maps that the block shows, if it shows one.
fn parse_map_block(block: &[char]) -> (maps: Option<Vec<ConversionMap>>)
    ensures
        maps is Some == is_map_block(block@),
        maps is Some ==> maps.unwrap()@.len() == map_lines(block@).len(),
        maps is Some ==> forall|i: int|
            0 <= i < map_lines(block@).len() ==> has_ranges(
                #[trigger] maps.unwrap()@[i],
                map_of_line(map_lines(block@)[i]),
            ),
{
    let content = keep_non_empty(split_at_char(block, ':'));
    if content.len() < 2 {
        return None;
    }
    assert(content@[1]@ == parts(block@)[1]);
    let rows = keep_non_empty(split_at_char(content[1].as_slice(), '\n'));
    let ghost all = map_lines(block@);
    let mut maps: Vec<ConversionMap> = Vec::new();
    let mut i: usize = 0;
    while i < rows.len()
        invariant
            i <= rows@.len(),
            texts(rows@) == all,
            all == map_lines(block@),
            maps@.len() == i,
            forall|k: int| 0 <= k < i ==> is_map_line(#[trigger] all[k]),
            forall|k: int| 0 <= k < i ==> has_ranges(#[trigger] maps@[k], map_of_line(all[k])),
        decreases rows@.len() - i,
    {
        assert(rows@[i as int]@ == all[i as int]);
        match to_conversion_map(rows[i].as_slice()) {
            Some(map) => {
                maps.push(map);
            },
            None => {
                return None;
            },
        }
        i += 1;
    }
    Some(maps)
}

/// Whether the text shows an almanac: at least eight blocks with empty lines
/// between them, of which the first names the seeds by numbers and the next
/// seven show a list of conversion maps each.
pub open spec fn is_almanac(s: Seq<char>) -> bool {
    &&& blocks(s).len() >= 8
    &&& parts(blocks(s)[0]).len() >= 2
    &&& are_numbers(words(parts(blocks(s)[0])[1], ' '))
    &&& forall|i: int| 1 <= i < 8 ==> is_map_block(#[trigger] blocks(s)[i])
}

/// The numbers in the first block of the almanac.
pub open spec fn seed_numbers(s: Seq<char>) -> Seq<usize> {
    numbers_of(words(parts(blocks(s)[0])[1], ' '))
}

/// Whether the lists are the seven lists of conversion maps of the almanac.
pub open spec fn are_lists_of(lists: Seq<Seq<ConversionMap>>, s: Seq<char>) -> bool {
    &&& lists.len() == 7
    &&& forall|i: int|
        0 <= i < 7 ==> (#[trigger] lists[i]).len() == map_lines(blocks(s)[i + 1]).len()
    &&& forall|i: int, k: int|
        0 <= i < 7 && 0 <= k < lists[i].len() ==> has_ranges(
            #[trigger] lists[i][k],
            map_of_line(map_lines(blocks(s)[i + 1])[k]),
        )
}

/// The seed numbers and the lists of conversion maps of the almanac that the
/// text shows, if it shows one.
pub fn parse_almanac(input: &str) -> (parsed: Option<(Vec<usize>, Vec<Vec<ConversionMap>>)>)
    ensures
        parsed is Some == is_almanac(input@),
        parsed is Some ==> parsed.unwrap().0@ == seed_numbers(input@),
        parsed is Some ==> are_lists_of(map_lists(parsed.unwrap().1@), input@),
{
    let chars = to_chars(input);
    let sections = split_blocks(chars.as_slice());
    if sections.len() < 8 {
        return None;
    }
    let ghost all = blocks(input@);
    assert(sections@[0]@ == all[0]);
    let first = keep_non_empty(split_at_char(sections[0].as_slice(), ':'));
    if first.len() < 2 {
        return None;
    }
    assert(first@[1]@ == parts(all[0])[1]);
    let seeds = match parse_numbers(first[1].as_slice()) {
        Some(seeds) => seeds,
        None => {
            return None;
        },
    };
    let mut conversion_maps: Vec<Vec<ConversionMap>> = Vec::new();
    let mut i: usize = 1;
    while i < 8
        invariant
            1 <= i <= 8,
            sections@.len() >= 8,
            texts(sections@) == all,
            all == blocks(input@),
            conversion_maps@.len() == i - 1,
            forall|k: int| 1 <= k < i ==> is_map_block(#[trigger] all[k]),
            forall|k: int|
                0 <= k < i - 1 ==> (#[trigger] conversion_maps@[k])@.len() == map_lines(
                    all[k + 1],
                ).len(),
            forall|k: int, j: int|
                0 <= k < i - 1 && 0 <= j < conversion_maps@[k]@.len() ==> has_ranges(
                    #[trigger] conversion_maps@[k]@[j],
                    map_of_line(map_lines(all[k + 1])[j]),
                ),
        decreases 8 - i,
    {
        assert(sections@[i as int]@ == all[i as int]);
        match parse_map_block(sections[i].as_slice()) {
            Some(maps) => {
                conversion_maps.push(maps);
            },
            None => {
                return None;
            },
        }
        i += 1;
    }
    assert(are_lists_of(map_lists(conversion_maps@), input@));
    Some((seeds, conversion_maps))
}

/// The seeds with the given numbers.
pub open spec fn seeds_of(numbers: Seq<usize>) -> Seq<Seed> {
    Seq::new(numbers.len(), |i: int| Seed(numbers[i]))
}

/// The seeds and the lists of conversion maps of the almanac, where the
/// numbers of the first block are the seeds.
pub fn try_solve_part_1(input: &str) -> (parsed: Option<(Vec<Seed>, Vec<Vec<ConversionMap>>)>)
    ensures
        parsed is Some == is_almanac(input@),
        parsed is Some ==> parsed.unwrap().0@ == seeds_of(seed_numbers(input@)),
        parsed is Some ==> are_lists_of(map_lists(parsed.unwrap().1@), input@),
{
    let (numbers, conversion_maps) = match parse_almanac(input) {
        Some(parsed) => parsed,
        None => {
            return None;
        },
    };
    let mut seeds: Vec<Seed> = Vec::new();
    let mut i: usize = 0;
    while i < numbers.len()
        invariant
            i <= numbers@.len(),
            seeds@ =~= seeds_of(numbers@.take(i as int)),
        decreases numbers@.len() - i,
    {
        seeds.push(Seed(numbers[i]));
        i += 1;
    }
    proof {
        assert(numbers@.take(numbers@.len() as int) =~= numbers@);
    }
    Some((seeds, conversion_maps))
}

/// The seeds and the lists of conversion maps of the almanac, where the
/// numbers of the first block are the seeds.
pub fn solve_part_1(input: &str) -> (parsed: (Vec<Seed>, Vec<Vec<ConversionMap>>))
    requires
        is_almanac(input@),
    ensures
        parsed.0@ == seeds_of(seed_numbers(input@)),
        are_lists_of(map_lists(parsed.1@), input@),
{
    match try_solve_part_1(input) {
        Some(parsed) => parsed,
        None => vstd::pervasive::unreached(),
    }
}

/// Whether the numbers can be read as ranges: they come in pairs of a start
/// and a length, and no range ends above `usize::MAX`.
pub open spec fn are_ranges(numbers: Seq<usize>) -> bool {
    &&& numbers.len() % 2 == 0
    &&& forall|i: int|
        0 <= i < numbers.len() / 2 ==> #[trigger] numbers[2 * i] + numbers[2 * i + 1] <= usize::MAX
}

/// The seeds of the ranges that the first `n` pairs of the numbers stand for:
/// for each pair of a start and a length in turn, the seeds from the start on,
/// as many as the length says.
pub open spec fn ranged_seeds(numbers: Seq<usize>, n: int) -> Seq<Seed>
    decreases n,
{
    if n <= 0 {
        Seq::empty()
    } else {
        ranged_seeds(numbers, n - 1) + Seq::new(
            numbers[2 * n - 1] as nat,
            |i: int| Seed((numbers[2 * n - 2] + i) as usize),
        )
    }
}

/// The ranges that the numbers of the text stand for, if they can be read as
/// ranges.
pub fn to_ranged_seeds(s: &[char]) -> (seeds: Option<RangedSeeds>)
    ensures
        seeds is Some == (are_numbers(words(s@, ' ')) && are_ranges(numbers_of(words(s@, ' ')))),
        seeds is Some ==> {
            let numbers = numbers_of(words(s@, ' '));
            &&& seeds.unwrap().ranges@.len() == numbers.len() / 2
            &&& forall|i: int|
                0 <= i < numbers.len() / 2 ==> (#[trigger] seeds.unwrap().ranges@[i]).start
                    == numbers[2 * i] && seeds.unwrap().ranges@[i].end == numbers[2 * i]
                    + numbers[2 * i + 1]
        },
{
    let nums = match parse_numbers(s) {
        Some(nums) => nums,
        None => {
            return None;
        },
    };
    pair_up(&nums)
}

/// The ranges that the numbers stand for, if they can be read as ranges.
fn pair_up(nums: &Vec<usize>) -> (seeds: Option<RangedSeeds>)
    ensures
        seeds is Some == are_ranges(nums@),
        seeds is Some ==> {
            &&& seeds.unwrap().ranges@.len() == nums@.len() / 2
            &&& forall|i: int|
                0 <= i < nums@.len() / 2 ==> (#[trigger] seeds.unwrap().ranges@[i]).start == nums@[2
                    * i] && seeds.unwrap().ranges@[i].end == nums@[2 * i] + nums@[2 * i + 1]
        },
{
    if nums.len() % 2 != 0 {
        return None;
    }
    let mut ranges: Vec<Range<usize>> = Vec::new();
    let mut i: usize = 0;
    while i < nums.len() / 2
        invariant
            i <= nums@.len() / 2,
            nums@.len() % 2 == 0,
            ranges@.len() == i,
            forall|k: int| 0 <= k < i ==> #[trigger] nums@[2 * k] + nums@[2 * k + 1] <= usize::MAX,
            forall|k: int|
                0 <= k < i ==> (#[trigger] ranges@[k]).start == nums@[2 * k] && ranges@[k].end
                    == nums@[2 * k] + nums@[2 * k + 1],
        decreases nums@.len() / 2 - i,
    {
        let start = nums[2 * i];
        let len = nums[2 * i + 1];
        match start.checked_add(len) {
            Some(end) => {
                ranges.push(start..end);
            },
            None => {
                assert(nums@[2 * (i as int)] + nums@[2 * (i as int) + 1] > usize::MAX);
                return None;
            },
        }
        i += 1;
    }
    Some(RangedSeeds { ranges })
}

/// The seeds and the lists of conversion maps of the almanac, where the
/// numbers of the first block are ranges of seeds.
pub fn try_solve_part_2(input: &str) -> (parsed: Option<(Vec<Seed>, Vec<Vec<ConversionMap>>)>)
    ensures
        parsed is Some == (is_almanac(input@) && are_ranges(seed_numbers(input@))),
        parsed is Some ==> parsed.unwrap().0@ == ranged_seeds(
            seed_numbers(input@),
            seed_numbers(input@).len() as int / 2,
        ),
        parsed is Some ==> are_lists_of(map_lists(parsed.unwrap().1@), input@),
{
    let (numbers, conversion_maps) = match parse_almanac(input) {
        Some(parsed) => parsed,
        None => {
            return None;
        },
    };
    let ranged = match pair_up(&numbers) {
        Some(ranged) => ranged,
        None => {
            return None;
        },
    };
    let mut seeds: Vec<Seed> = Vec::new();
    let mut r: usize = 0;
    while r < ranged.ranges.len()
        invariant
            r <= ranged.ranges@.len(),
            ranged.ranges@.len() == numbers@.len() / 2,
            forall|k: int|
                0 <= k < numbers@.len() / 2 ==> (#[trigger] ranged.ranges@[k]).start == numbers@[2
                    * k] && ranged.ranges@[k].end == numbers@[2 * k] + numbers@[2 * k + 1],
            seeds@ == ranged_seeds(numbers@, r as int),
        decreases ranged.ranges@.len() - r,
    {
        let start = ranged.ranges[r].start;
        let end = ranged.ranges[r].end;
        let ghost before = seeds@;
        let mut i: usize = start;
        while i < end
            invariant
                start <= i <= end,
                seeds@ =~= before + Seq::new((i - start) as nat, |k: int| Seed((start + k) as usize)),
            decreases end - i,
        {
            seeds.push(Seed(i));
            i += 1;
        }
        proof {
            assert(start == numbers@[2 * (r as int)]);
            assert(end - start == numbers@[2 * (r + 1) - 1]);
            assert(Seq::new((end - start) as nat, |k: int| Seed((start + k) as usize)) =~= Seq::new(
                numbers@[2 * (r + 1) - 1] as nat,
                |k: int| Seed((numbers@[2 * (r + 1) - 2] + k) as usize),
            ));
        }
        r += 1;
    }
    Some((seeds, conversion_maps))
}

/// The seeds and the lists of conversion maps of the almanac, where the
/// numbers of the first block are ranges of seeds.
pub fn solve_part_2(input: &str) -> (parsed: (Vec<Seed>, Vec<Vec<ConversionMap>>))
    requires
        is_almanac(input@),
        are_ranges(seed_numbers(input@)),
    ensures
        parsed.0@ == ranged_seeds(seed_numbers(input@), seed_numbers(input@).len() as int / 2),
        are_lists_of(map_lists(parsed.1@), input@),
{
    match try_solve_part_2(input) {
        Some(parsed) => parsed,
        None => vstd::pervasive::unreached(),
    }
}

} // verus!
