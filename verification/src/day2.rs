//! Games of coloured cubes: which games are possible with a given supply of
//! cubes, and how many cubes each game needs at least.
use crate::text::{
    is_unsigned, is_word, parse_unsigned, split, split_at_char, split_words, texts, to_chars,
    unsigned_value, words,
};
use vstd::prelude::*;

verus! {

/// One handful of cubes: how many red, blue and green cubes were shown, where
/// the colour was shown at all.
#[derive(PartialEq, Eq, Structural, Clone, Copy, Debug)]
pub struct GameSet {
    pub red: Option<u64>,
    pub blue: Option<u64>,
    pub green: Option<u64>,
}

/// A game: its number and the handfuls of cubes shown in it.
#[derive(Clone, Debug)]
pub struct Game {
    pub id: u64,
    pub sets: Vec<GameSet>,
}

/// The greater of two counts, where a colour that was not shown is less than
/// any number.
pub open spec fn greater(a: Option<u64>, b: Option<u64>) -> Option<u64> {
    match (a, b) {
        (Some(x), Some(y)) => if x >= y {
            a
        } else {
            b
        },
        (Some(_), None) => a,
        _ => b,
    }
}

/// The greatest of the counts; `None` if there are none.
pub open spec fn greatest(counts: Seq<Option<u64>>) -> Option<u64>
    decreases counts.len(),
{
    if counts.len() == 0 {
        None
    } else {
        greater(greatest(counts.drop_last()), counts.last())
    }
}

/// The number of cubes that a game needs of a colour of which these are the
/// counts shown: the greatest count, and 1 where the colour was never shown.
pub open spec fn needed(counts: Seq<Option<u64>>) -> nat {
    match greatest(counts) {
        Some(n) => n as nat,
        None => 1,
    }
}

impl GameSet {
    /// Whether the handful is possible with the given supply of cubes.
    pub open spec fn fits(self, max_red: u64, max_green: u64, max_blue: u64) -> bool {
        &&& self.red is Some ==> self.red.unwrap() <= max_red
        &&& self.green is Some ==> self.green.unwrap() <= max_green
        &&& self.blue is Some ==> self.blue.unwrap() <= max_blue
    }

    /// The handful with the given counts of red, blue and green cubes.
    pub fn new(red: Option<u64>, blue: Option<u64>, green: Option<u64>) -> (set: GameSet)
        ensures
            set == (GameSet { red, blue, green }),
    {
        GameSet { red: red, blue: blue, green: green }
    }

    /// Whether the handful is possible with the given supply of cubes.
    pub fn is_valid(&self, max_red: u64, max_green: u64, max_blue: u64) -> (valid: bool)
        ensures
            valid == self.fits(max_red, max_green, max_blue),
    {
        let valid_red = match self.red {
            Some(red) => red <= max_red,
            None => true,
        };
        let valid_green = match self.green {
            Some(green) => green <= max_green,
            None => true,
        };
        let valid_blue = match self.blue {
            Some(blue) => blue <= max_blue,
            None => true,
        };
        valid_red && valid_green && valid_blue
    }
}

/// The counts of red cubes of the handfuls.
pub open spec fn reds(sets: Seq<GameSet>) -> Seq<Option<u64>> {
    Seq::new(sets.len(), |i: int| sets[i].red)
}

/// The counts of blue cubes of the handfuls.
pub open spec fn blues(sets: Seq<GameSet>) -> Seq<Option<u64>> {
    Seq::new(sets.len(), |i: int| sets[i].blue)
}

/// The counts of green cubes of the handfuls.
pub open spec fn greens(sets: Seq<GameSet>) -> Seq<Option<u64>> {
    Seq::new(sets.len(), |i: int| sets[i].green)
}

/// The power of a game with these handfuls: the product of the numbers of red,
/// blue and green cubes that it needs.
pub open spec fn power(sets: Seq<GameSet>) -> nat {
    needed(reds(sets)) * needed(blues(sets)) * needed(greens(sets))
}

/// Whether every handful is possible with the given supply of cubes.
pub open spec fn possible(sets: Seq<GameSet>, max_red: u64, max_green: u64, max_blue: u64) -> bool {
    forall|i: int| 0 <= i < sets.len() ==> (#[trigger] sets[i]).fits(max_red, max_green, max_blue)
}

/// The greater of two counts.
fn greater_of(a: Option<u64>, b: Option<u64>) -> (m: Option<u64>)
    ensures
        m == greater(a, b),
{
    match (a, b) {
        (Some(x), Some(y)) => if x >= y {
            a
        } else {
            b
        },
        (Some(_), None) => a,
        _ => b,
    }
}

impl Game {
    /// The number of red cubes that the game needs at least.
    pub fn min_red(&self) -> (n: u64)
        requires
            self.sets@.len() > 0,
        ensures
            n == needed(reds(self.sets@)),
    {
        let ghost all = reds(self.sets@);
        let mut m: Option<u64> = None;
        let mut i: usize = 0;
        while i < self.sets.len()
            invariant
                i <= self.sets@.len(),
                all == reds(self.sets@),
                m == greatest(all.take(i as int)),
            decreases self.sets@.len() - i,
        {
            proof {
                assert(all.take(i + 1).drop_last() =~= all.take(i as int));
            }
            m = greater_of(m, self.sets[i].red);
            i += 1;
        }
        proof {
            assert(all.take(self.sets@.len() as int) =~= all);
        }
        match m {
            Some(n) => n,
            None => 1,
        }
    }

    /// The number of blue cubes that the game needs at least.
    pub fn min_blue(&self) -> (n: u64)
        requires
            self.sets@.len() > 0,
        ensures
            n == needed(blues(self.sets@)),
    {
        let ghost all = blues(self.sets@);
        let mut m: Option<u64> = None;
        let mut i: usize = 0;
        while i < self.sets.len()
            invariant
                i <= self.sets@.len(),
                all == blues(self.sets@),
                m == greatest(all.take(i as int)),
            decreases self.sets@.len() - i,
        {
            proof {
                assert(all.take(i + 1).drop_last() =~= all.take(i as int));
            }
            m = greater_of(m, self.sets[i].blue);
            i += 1;
        }
        proof {
            assert(all.take(self.sets@.len() as int) =~= all);
        }
        match m {
            Some(n) => n,
            None => 1,
        }
    }

    /// The number of green cubes that the game needs at least.
    pub fn min_green(&self) -> (n: u64)
        requires
            self.sets@.len() > 0,
        ensures
            n == needed(greens(self.sets@)),
    {
        let ghost all = greens(self.sets@);
        let mut m: Option<u64> = None;
        let mut i: usize = 0;
        while i < self.sets.len()
            invariant
                i <= self.sets@.len(),
                all == greens(self.sets@),
                m == greatest(all.take(i as int)),
            decreases self.sets@.len() - i,
        {
            proof {
                assert(all.take(i + 1).drop_last() =~= all.take(i as int));
            }
            m = greater_of(m, self.sets[i].green);
            i += 1;
        }
        proof {
            assert(all.take(self.sets@.len() as int) =~= all);
        }
        match m {
            Some(n) => n,
            None => 1,
        }
    }

    /// The power of the game, unless it is above `u64::MAX`.
    pub fn checked_power(&self) -> (p: Option<u64>)
        requires
            self.sets@.len() > 0,
        ensures
            p is Some == (power(self.sets@) <= u64::MAX),
            p is Some ==> p.unwrap() == power(self.sets@),
    {
        let red = self.min_red();
        let blue = self.min_blue();
        let green = self.min_green();
        if red == 0 || blue == 0 || green == 0 {
            assert(red * blue * green == 0) by (nonlinear_arith)
                requires
                    red == 0 || blue == 0 || green == 0,
            ;
            return Some(0);
        }
        match red.checked_mul(blue) {
            Some(both) => both.checked_mul(green),
            None => {
                assert(red * blue * green > u64::MAX) by (nonlinear_arith)
                    requires
                        red * blue > u64::MAX,
                        green >= 1,
                ;
                None
            },
        }
    }

    /// The power of the game: the product of the numbers of red, blue and green
    /// cubes that it needs at least.
    pub fn game_power(&self) -> (p: u64)
        requires
            self.sets@.len() > 0,
            power(self.sets@) <= u64::MAX,
        ensures
            p == power(self.sets@),
    {
        match self.checked_power() {
            Some(p) => p,
            None => vstd::pervasive::unreached(),
        }
    }

    /// Whether every handful of the game is possible with the given supply.
    pub fn is_possible(&self, max_red: u64, max_green: u64, max_blue: u64) -> (b: bool)
        ensures
            b == possible(self.sets@, max_red, max_green, max_blue),
    {
        let mut i: usize = 0;
        while i < self.sets.len()
            invariant
                i <= self.sets@.len(),
                forall|k: int|
                    0 <= k < i ==> (#[trigger] self.sets@[k]).fits(max_red, max_green, max_blue),
            decreases self.sets@.len() - i,
        {
            if !self.sets[i].is_valid(max_red, max_green, max_blue) {
                return false;
            }
            i += 1;
        }
        true
    }
}

/// Whether the text shows a count of cubes: its first word is a number; its
/// last word names the colour.
pub open spec fn is_count_text(piece: Seq<char>) -> bool {
    words(piece, ' ').len() >= 1 && is_unsigned(words(piece, ' ')[0], u64::MAX as nat)
}

/// The count that the first of the pieces with the colour `colour` shows.
pub open spec fn count_of_colour(pieces: Seq<Seq<char>>, colour: Seq<char>) -> Option<u64>
    decreases pieces.len(),
{
    if pieces.len() == 0 {
        None
    } else if count_of_colour(pieces.drop_last(), colour) is Some {
        count_of_colour(pieces.drop_last(), colour)
    } else if words(pieces.last(), ' ').last() == colour {
        Some(unsigned_value(words(pieces.last(), ' ')[0]) as u64)
    } else {
        None
    }
}

/// Whether the text shows a handful of cubes: counts with commas between them.
pub open spec fn is_set_text(s: Seq<char>) -> bool {
    forall|i: int| 0 <= i < split(s, ',').len() ==> is_count_text(#[trigger] split(s, ',')[i])
}

/// The handful of cubes that the text shows.
pub open spec fn set_of_text(s: Seq<char>) -> GameSet {
    GameSet {
        red: count_of_colour(split(s, ','), "red"@),
        blue: count_of_colour(split(s, ','), "blue"@),
        green: count_of_colour(split(s, ','), "green"@),
    }
}

/// The handful of cubes that the text shows, if it shows one.
pub fn parse_set(s: &[char]) -> (set: Option<GameSet>)
    ensures
        set is Some == is_set_text(s@),
        set is Some ==> set.unwrap() == set_of_text(s@),
{
    let pieces = split_at_char(s, ',');
    let ghost all = texts(pieces@);
    let mut red: Option<u64> = None;
    let mut blue: Option<u64> = None;
    let mut green: Option<u64> = None;
    let mut i: usize = 0;
    while i < pieces.len()
        invariant
            i <= pieces@.len(),
            all == texts(pieces@),
            all == split(s@, ','),
            forall|k: int| 0 <= k < i ==> is_count_text(#[trigger] all[k]),
            red == count_of_colour(all.take(i as int), "red"@),
            blue == count_of_colour(all.take(i as int), "blue"@),
            green == count_of_colour(all.take(i as int), "green"@),
        decreases pieces@.len() - i,
    {
        proof {
            assert(all.take(i + 1).drop_last() =~= all.take(i as int));
            assert(all.take(i + 1).last() == pieces@[i as int]@);
        }
        let parts = split_words(pieces[i].as_slice(), ' ');
        if parts.len() == 0 {
            assert(!is_count_text(all[i as int]));
            return None;
        }
        assert(parts@[0]@ == words(all[i as int], ' ')[0]);
        assert(parts@[parts@.len() - 1]@ == words(all[i as int], ' ').last());
        let value = match parse_unsigned(parts[0].as_slice(), u64::MAX) {
            Some(value) => value,
            None => {
                assert(!is_count_text(all[i as int]));
                return None;
            },
        };
        let color = &parts[parts.len() - 1];
        if red.is_none() && is_word(color.as_slice(), "red") {
            red = Some(value);
        }
        if blue.is_none() && is_word(color.as_slice(), "blue") {
            blue = Some(value);
        }
        if green.is_none() && is_word(color.as_slice(), "green") {
            green = Some(value);
        }
        i += 1;
    }
    proof {
        assert(all.take(pieces@.len() as int) =~= all);
    }
    Some(GameSet::new(red, blue, green))
}

/// Whether the text shows a game: before a colon a word and then, after one
/// space, the number of the game; behind the colon handfuls of cubes with
/// semicolons between them.
pub open spec fn is_game_text(s: Seq<char>) -> bool {
    let head = split(split(s, ':')[0], ' ');
    &&& head.len() >= 2
    &&& is_unsigned(head[1], u64::MAX as nat)
    &&& split(s, ':').len() >= 2
    &&& forall|i: int|
        0 <= i < split(split(s, ':')[1], ';').len() ==> is_set_text(
            #[trigger] split(split(s, ':')[1], ';')[i],
        )
}

/// The number of the game that the text shows.
pub open spec fn id_of_text(s: Seq<char>) -> u64 {
    unsigned_value(split(split(s, ':')[0], ' ')[1]) as u64
}

/// The handfuls of the game that the text shows.
pub open spec fn sets_of_text(s: Seq<char>) -> Seq<GameSet> {
    Seq::new(
        split(split(s, ':')[1], ';').len(),
        |i: int| set_of_text(split(split(s, ':')[1], ';')[i]),
    )
}

/// The game that the text shows, if it shows one.
pub fn parse_game(s: &[char]) -> (game: Option<Game>)
    ensures
        game is Some == is_game_text(s@),
        game is Some ==> game.unwrap().id == id_of_text(s@) && game.unwrap().sets@ == sets_of_text(
            s@,
        ),
{
    let halves = split_at_char(s, ':');
    proof {
        crate::text::split_is_not_empty(s@, ':');
    }
    assert(halves@[0]@ == split(s@, ':')[0]);
    let head = split_at_char(halves[0].as_slice(), ' ');
    if head.len() < 2 {
        return None;
    }
    assert(head@[1]@ == split(split(s@, ':')[0], ' ')[1]);
    let id = match parse_unsigned(head[1].as_slice(), u64::MAX) {
        Some(id) => id,
        None => {
            return None;
        },
    };
    if halves.len() < 2 {
        return None;
    }
    assert(halves@[1]@ == split(s@, ':')[1]);
    let raw_sets = split_at_char(halves[1].as_slice(), ';');
    let ghost all = texts(raw_sets@);
    let mut sets: Vec<GameSet> = Vec::new();
    let mut i: usize = 0;
    while i < raw_sets.len()
        invariant
            i <= raw_sets@.len(),
            all == texts(raw_sets@),
            all == split(split(s@, ':')[1], ';'),
            sets@.len() == i,
            forall|k: int| 0 <= k < i ==> is_set_text(#[trigger] all[k]),
            forall|k: int| 0 <= k < i ==> #[trigger] sets@[k] == set_of_text(all[k]),
        decreases raw_sets@.len() - i,
    {
        assert(raw_sets@[i as int]@ == all[i as int]);
        match parse_set(raw_sets[i].as_slice()) {
            Some(set) => {
                sets.push(set);
            },
            None => {
                return None;
            },
        }
        i += 1;
    }
    assert(sets@ =~= sets_of_text(s@));
    Some(Game { id, sets })
}

/// Whether every piece of the text between line feeds shows a game.
pub open spec fn is_games_text(s: Seq<char>) -> bool {
    forall|i: int| 0 <= i < split(s, '\n').len() ==> is_game_text(#[trigger] split(s, '\n')[i])
}

/// The sum of the numbers of the first `n` games of the text that are possible
/// with 12 red, 13 green and 14 blue cubes.
pub open spec fn possible_ids(s: Seq<char>, n: int) -> nat
    decreases n,
{
    if n <= 0 {
        0
    } else {
        let game = split(s, '\n')[n - 1];
        possible_ids(s, n - 1) + if possible(sets_of_text(game), 12, 13, 14) {
            id_of_text(game) as nat
        } else {
            0
        }
    }
}

/// The sum of the powers of the first `n` games of the text.
pub open spec fn powers(s: Seq<char>, n: int) -> nat
    decreases n,
{
    if n <= 0 {
        0
    } else {
        powers(s, n - 1) + power(sets_of_text(split(s, '\n')[n - 1]))
    }
}

/// The sums do not get less with more games.
proof fn sums_grow(s: Seq<char>, n: int, m: int)
    requires
        0 <= n <= m,
    ensures
        possible_ids(s, n) <= possible_ids(s, m),
        powers(s, n) <= powers(s, m),
    decreases m - n,
{
    if n < m {
        sums_grow(s, n, m - 1);
    }
}

/// The games that the text shows, if every piece between line feeds shows one.
pub fn parse_games(input: &str) -> (games: Option<Vec<Game>>)
    ensures
        games is Some == is_games_text(input@),
        games is Some ==> games.unwrap()@.len() == split(input@, '\n').len(),
        games is Some ==> forall|i: int|
            0 <= i < games.unwrap()@.len() ==> {
                &&& (#[trigger] games.unwrap()@[i]).id == id_of_text(split(input@, '\n')[i])
                &&& games.unwrap()@[i].sets@ == sets_of_text(split(input@, '\n')[i])
            },
{
    let chars = to_chars(input);
    let rows = split_at_char(chars.as_slice(), '\n');
    let ghost all = split(input@, '\n');
    let mut games: Vec<Game> = Vec::new();
    let mut i: usize = 0;
    while i < rows.len()
        invariant
            i <= rows@.len(),
            texts(rows@) == all,
            all == split(input@, '\n'),
            games@.len() == i,
            forall|k: int| 0 <= k < i ==> is_game_text(#[trigger] all[k]),
            forall|k: int|
                0 <= k < i ==> {
                    &&& (#[trigger] games@[k]).id == id_of_text(all[k])
                    &&& games@[k].sets@ == sets_of_text(all[k])
                },
        decreases rows@.len() - i,
    {
        assert(rows@[i as int]@ == all[i as int]);
        match parse_game(rows[i].as_slice()) {
            Some(game) => {
                games.push(game);
            },
            None => {
                return None;
            },
        }
        i += 1;
    }
    Some(games)
}

/// The sum of the numbers of the games that are possible with 12 red, 13 green
/// and 14 blue cubes, if the text shows games and the sum is not above
/// `u64::MAX`.
pub fn try_solve(input: &str) -> (sum: Option<u64>)
    ensures
        sum is Some == (is_games_text(input@) && possible_ids(
            input@,
            split(input@, '\n').len() as int,
        ) <= u64::MAX),
        sum is Some ==> sum.unwrap() == possible_ids(input@, split(input@, '\n').len() as int),
{
    let games = match parse_games(input) {
        Some(games) => games,
        None => {
            return None;
        },
    };
    let ghost all = split(input@, '\n');
    let mut sum: u64 = 0;
    let mut i: usize = 0;
    while i < games.len()
        invariant
            i <= games@.len(),
            games@.len() == all.len(),
            all == split(input@, '\n'),
            forall|k: int|
                0 <= k < games@.len() ==> {
                    &&& (#[trigger] games@[k]).id == id_of_text(all[k])
                    &&& games@[k].sets@ == sets_of_text(all[k])
                },
            sum == possible_ids(input@, i as int),
        decreases games@.len() - i,
    {
        proof {
            sums_grow(input@, i + 1, all.len() as int);
        }
        if games[i].is_possible(12, 13, 14) {
            sum = match sum.checked_add(games[i].id) {
                Some(sum) => sum,
                None => {
                    return None;
                },
            };
        }
        i += 1;
    }
    Some(sum)
}

/// The sum of the numbers of the games that are possible with 12 red, 13 green
/// and 14 blue cubes.
pub fn solve(input: &str) -> (sum: u64)
    requires
        is_games_text(input@),
        possible_ids(input@, split(input@, '\n').len() as int) <= u64::MAX,
    ensures
        sum == possible_ids(input@, split(input@, '\n').len() as int),
{
    match try_solve(input) {
        Some(sum) => sum,
        None => vstd::pervasive::unreached(),
    }
}

/// The sum of the powers of the games, if the text shows games and the sum is
/// not above `u64::MAX`.
pub fn try_solve_part2(input: &str) -> (sum: Option<u64>)
    ensures
        sum is Some == (is_games_text(input@) && powers(input@, split(input@, '\n').len() as int)
            <= u64::MAX),
        sum is Some ==> sum.unwrap() == powers(input@, split(input@, '\n').len() as int),
{
    let games = match parse_games(input) {
        Some(games) => games,
        None => {
            return None;
        },
    };
    let ghost all = split(input@, '\n');
    let mut sum: u64 = 0;
    let mut i: usize = 0;
    while i < games.len()
        invariant
            i <= games@.len(),
            games@.len() == all.len(),
            all == split(input@, '\n'),
            is_games_text(input@),
            forall|k: int|
                0 <= k < games@.len() ==> {
                    &&& (#[trigger] games@[k]).id == id_of_text(all[k])
                    &&& games@[k].sets@ == sets_of_text(all[k])
                },
            sum == powers(input@, i as int),
        decreases games@.len() - i,
    {
        proof {
            sums_grow(input@, i + 1, all.len() as int);
            assert(is_game_text(all[i as int]));
            crate::text::split_is_not_empty(split(all[i as int], ':')[1], ';');
        }
        let game_power = match games[i].checked_power() {
            Some(p) => p,
            None => {
                return None;
            },
        };
        sum = match sum.checked_add(game_power) {
            Some(sum) => sum,
            None => {
                return None;
            },
        };
        i += 1;
    }
    Some(sum)
}

/// The sum of the powers of the games.
pub fn solve_part2(input: &str) -> (sum: u64)
    requires
        is_games_text(input@),
        powers(input@, split(input@, '\n').len() as int) <= u64::MAX,
    ensures
        sum == powers(input@, split(input@, '\n').len() as int),
{
    match try_solve_part2(input) {
        Some(sum) => sum,
        None => vstd::pervasive::unreached(),
    }
}

impl GameSet {
    /// The handful of cubes that the text shows.
    pub fn from(s: &str) -> (set: GameSet)
        requires
            is_set_text(s@),
        ensures
            set == set_of_text(s@),
    {
        let chars = to_chars(s);
        match parse_set(chars.as_slice()) {
            Some(set) => set,
            None => vstd::pervasive::unreached(),
        }
    }
}

impl Game {
    /// The game that the text shows.
    pub fn from(s: &str) -> (game: Game)
        requires
            is_game_text(s@),
        ensures
            game.id == id_of_text(s@),
            game.sets@ == sets_of_text(s@),
    {
        let chars = to_chars(s);
        match parse_game(chars.as_slice()) {
            Some(game) => game,
            None => vstd::pervasive::unreached(),
        }
    }
}

} // verus!
