//! Scratch cards: the numbers that win on each card, the points of the cards,
//! and the cards that are won in turn.
use crate::text::{
    all_numeric, is_all_numeric, is_unsigned, keep_non_empty, lines, non_empty, parse_unsigned,
    split, split_at_char, split_lines, split_words, texts, to_chars, unsigned_value, words,
};
use vstd::prelude::*;

verus! {

/// The numbers of one card.
pub type Card = Vec<u16>;

/// The cards of a game: for each card the numbers that win and the numbers
/// that the player has.
#[derive(Debug)]
pub struct Game {
    pub winners: Vec<Card>,
    pub own: Vec<Card>,
}

/// The numbers of the cards as sequences.
pub open spec fn cards_of(cards: Seq<Card>) -> Seq<Seq<u16>> {
    Seq::new(cards.len(), |i: int| cards[i]@)
}

/// How many of the winning numbers are among the player's numbers. A winning
/// number that is named twice counts twice.
pub open spec fn matches(winners: Seq<u16>, own: Seq<u16>) -> nat
    decreases winners.len(),
{
    if winners.len() == 0 {
        0
    } else {
        matches(winners.drop_last(), own) + if own.contains(winners.last()) {
            1nat
        } else {
            0nat
        }
    }
}

/// How many cards the game has from the index `idx` on.
pub open spec fn cards_left(own: Seq<Seq<u16>>, idx: int) -> nat {
    if 0 <= idx < own.len() {
        (own.len() - idx) as nat
    } else {
        0
    }
}

/// The cards that the card with index `idx` brings: the card itself, and what
/// each of the cards behind it brings that it wins, as many as it has matches.
/// A card that the game does not have brings nothing.
pub open spec fn won(winners: Seq<Seq<u16>>, own: Seq<Seq<u16>>, idx: int) -> Seq<Seq<u16>>
    decreases 2 * cards_left(own, idx) + 1, 0int,
{
    if idx < 0 || idx >= own.len() {
        Seq::empty()
    } else {
        seq![own[idx]] + won_behind(winners, own, idx, matches(winners[idx], own[idx]) as int)
    }
}

/// What the first `k` cards behind the card with index `idx` bring, in order.
pub open spec fn won_behind(winners: Seq<Seq<u16>>, own: Seq<Seq<u16>>, idx: int, k: int) -> Seq<
    Seq<u16>,
>
    decreases 2 * cards_left(own, idx), k,
{
    if k <= 0 || idx < 0 || idx >= own.len() {
        Seq::empty()
    } else {
        won_behind(winners, own, idx, k - 1) + won(winners, own, idx + k)
    }
}

/// Whether the number is among the numbers.
fn holds_number(numbers: &Vec<u16>, number: u16) -> (found: bool)
    ensures
        found == numbers@.contains(number),
{
    let mut i: usize = 0;
    while i < numbers.len()
        invariant
            i <= numbers@.len(),
            forall|k: int| 0 <= k < i ==> numbers@[k] != number,
        decreases numbers@.len() - i,
    {
        if numbers[i] == number {
            return true;
        }
        i += 1;
    }
    false
}

/// How many of the winning numbers are among the player's numbers.
pub fn count_matches(winners: &Vec<u16>, card: &Vec<u16>) -> (count: usize)
    ensures
        count == matches(winners@, card@),
{
    let mut count: usize = 0;
    let mut i: usize = 0;
    while i < winners.len()
        invariant
            i <= winners@.len(),
            count <= i,
            count == matches(winners@.take(i as int), card@),
        decreases winners@.len() - i,
    {
        proof {
            assert(winners@.take(i + 1).drop_last() =~= winners@.take(i as int));
        }
        if holds_number(card, winners[i]) {
            count += 1;
        }
        i += 1;
    }
    proof {
        assert(winners@.take(winners@.len() as int) =~= winners@);
    }
    count
}

/// A copy of the card.
fn copy_card(card: &Vec<u16>) -> (copy: Vec<u16>)
    ensures
        copy@ == card@,
{
    let mut copy: Vec<u16> = Vec::new();
    let mut i: usize = 0;
    while i < card.len()
        invariant
            i <= card@.len(),
            copy@ =~= card@.take(i as int),
        decreases card@.len() - i,
    {
        copy.push(card[i]);
        i += 1;
    }
    assert(card@.take(card@.len() as int) =~= card@);
    copy
}

/// Adds to `winning_cards` the cards that the card with index `card_index`
/// brings: the card itself and, for each of its matches, what the next card
/// behind it brings.
pub fn process_card(game: &Game, card_index: usize, winning_cards: &mut Vec<Card>)
    requires
        game.winners@.len() >= game.own@.len(),
    ensures
        cards_of(final(winning_cards)@) == cards_of(old(winning_cards)@) + won(
            cards_of(game.winners@),
            cards_of(game.own@),
            card_index as int,
        ),
    decreases 2 * cards_left(cards_of(game.own@), card_index as int) + 1, 0int,
{
    let ghost winners = cards_of(game.winners@);
    let ghost own = cards_of(game.own@);
    let ghost before = cards_of(winning_cards@);
    if card_index >= game.own.len() {
        assert(before + Seq::<Seq<u16>>::empty() =~= before);
        return ;
    }
    let card = &game.own[card_index];
    let count_winning_numbers = count_matches(&game.winners[card_index], card);
    winning_cards.push(copy_card(card));
    assert(cards_of(winning_cards@) =~= before + seq![own[card_index as int]]);
    let mut index: usize = 0;
    while index < count_winning_numbers
        invariant
            index <= count_winning_numbers,
            card_index < game.own@.len(),
            game.winners@.len() >= game.own@.len(),
            winners == cards_of(game.winners@),
            own == cards_of(game.own@),
            cards_of(winning_cards@) == before + seq![own[card_index as int]] + won_behind(
                winners,
                own,
                card_index as int,
                index as int,
            ),
        decreases count_winning_numbers - index,
    {
        index += 1;
        let ghost so_far = cards_of(winning_cards@);
        let cards = game.own.len();
        match card_index.checked_add(index) {
            Some(next) => {
                process_card(game, next, winning_cards);
            },
            None => {
                assert(won(winners, own, card_index + index) =~= Seq::<Seq<u16>>::empty());
                assert(so_far + Seq::<Seq<u16>>::empty() =~= so_far);
            },
        }
        assert(cards_of(winning_cards@) =~= before + seq![own[card_index as int]] + won_behind(
            winners,
            own,
            card_index as int,
            index as int,
        ));
    }
    assert(cards_of(winning_cards@) =~= before + (seq![own[card_index as int]] + won_behind(
        winners,
        own,
        card_index as int,
        count_winning_numbers as int,
    )));
}

/// The words of which all characters are numeric, in order.
pub open spec fn numeric_words(tokens: Seq<Seq<char>>) -> Seq<Seq<char>>
    decreases tokens.len(),
{
    if tokens.len() == 0 {
        tokens
    } else if all_numeric(tokens.last()) {
        numeric_words(tokens.drop_last()).push(tokens.last())
    } else {
        numeric_words(tokens.drop_last())
    }
}

/// Whether every one of the words stands for a number of 16 bits.
pub open spec fn are_small_numbers(tokens: Seq<Seq<char>>) -> bool {
    forall|i: int| 0 <= i < tokens.len() ==> is_unsigned(#[trigger] tokens[i], u16::MAX as nat)
}

/// The numbers that the words stand for.
pub open spec fn small_numbers(tokens: Seq<Seq<char>>) -> Seq<u16> {
    Seq::new(tokens.len(), |i: int| unsigned_value(tokens[i]) as u16)
}

/// The words of the line that name winning numbers: the words before the bar
/// of which all characters are numeric. Other words there are passed over.
pub open spec fn winner_words(line: Seq<char>) -> Seq<Seq<char>> {
    numeric_words(words(split(line, '|')[0], ' '))
}

/// The words of the line that name the player's numbers: the words behind the
/// bar.
pub open spec fn own_words(line: Seq<char>) -> Seq<Seq<char>> {
    words(split(line, '|')[1], ' ')
}

/// Whether the line shows a card: winning numbers, a bar, and the player's
/// numbers, all of 16 bits.
pub open spec fn is_card_line(line: Seq<char>) -> bool {
    &&& split(line, '|').len() >= 2
    &&& are_small_numbers(winner_words(line))
    &&& are_small_numbers(own_words(line))
}

/// The numbers that the words stand for, if every one stands for a number of
/// 16 bits.
fn parse_small_numbers(tokens: &Vec<Vec<char>>) -> (numbers: Option<Vec<u16>>)
    ensures
        numbers is Some == are_small_numbers(texts(tokens@)),
        numbers is Some ==> numbers.unwrap()@ == small_numbers(texts(tokens@)),
{
    let ghost all = texts(tokens@);
    let mut numbers: Vec<u16> = Vec::new();
    let mut i: usize = 0;
    while i < tokens.len()
        invariant
            i <= tokens@.len(),
            all == texts(tokens@),
            numbers@.len() == i,
            forall|k: int| 0 <= k < i ==> is_unsigned(#[trigger] all[k], u16::MAX as nat),
            forall|k: int| 0 <= k < i ==> #[trigger] numbers@[k] == unsigned_value(all[k]),
        decreases tokens@.len() - i,
    {
        assert(tokens@[i as int]@ == all[i as int]);
        match parse_unsigned(tokens[i].as_slice(), 65535) {
            Some(value) => {
                numbers.push(value as u16);
            },
            None => {
                return None;
            },
        }
        i += 1;
    }
    assert(numbers@ =~= small_numbers(all));
    Some(numbers)
}

/// The words of which all characters are numeric.
fn keep_numeric(tokens: Vec<Vec<char>>) -> (kept: Vec<Vec<char>>)
    ensures
        texts(kept@) == numeric_words(texts(tokens@)),
{
    let ghost all = texts(tokens@);
    let mut kept: Vec<Vec<char>> = Vec::new();
    let mut i: usize = 0;
    while i < tokens.len()
        invariant
            i <= tokens@.len(),
            all == texts(tokens@),
            texts(kept@) =~= numeric_words(all.take(i as int)),
        decreases tokens@.len() - i,
    {
        proof {
            assert(all.take(i + 1).drop_last() =~= all.take(i as int));
            assert(all.take(i + 1).last() == tokens@[i as int]@);
        }
        if is_all_numeric(tokens[i].as_slice()) {
            let token = crate::text::copy_range(tokens[i].as_slice(), 0, tokens[i].len());
            assert(token@ =~= tokens@[i as int]@);
            let ghost before = texts(kept@);
            kept.push(token);
            assert(texts(kept@) =~= before.push(token@));
        }
        i += 1;
    }
    proof {
        assert(all.take(tokens@.len() as int) =~= all);
    }
    kept
}

/// The winning numbers and the player's numbers of the card that the line
/// shows, if it shows a card.
pub fn parse_card(line: &[char]) -> (card: Option<(Card, Card)>)
    ensures
        card is Some == is_card_line(line@),
        card is Some ==> card.unwrap().0@ == small_numbers(winner_words(line@)),
        card is Some ==> card.unwrap().1@ == small_numbers(own_words(line@)),
{
    let cards = split_at_char(line, '|');
    proof {
        crate::text::split_is_not_empty(line@, '|');
    }
    assert(cards@[0]@ == split(line@, '|')[0]);
    let winner_tokens = keep_numeric(split_words(cards[0].as_slice(), ' '));
    let winners = match parse_small_numbers(&winner_tokens) {
        Some(winners) => winners,
        None => {
            return None;
        },
    };
    if cards.len() < 2 {
        return None;
    }
    assert(cards@[1]@ == split(line@, '|')[1]);
    let own_tokens = split_words(cards[1].as_slice(), ' ');
    let own = match parse_small_numbers(&own_tokens) {
        Some(own) => own,
        None => {
            return None;
        },
    };
    Some((winners, own))
}

/// The lines of the text that show cards: its lines that are not empty.
pub open spec fn card_lines(s: Seq<char>) -> Seq<Seq<char>> {
    non_empty(lines(s))
}

/// Whether every line of the text that is not empty shows a card.
pub open spec fn is_game_text(s: Seq<char>) -> bool {
    forall|i: int| 0 <= i < card_lines(s).len() ==> is_card_line(#[trigger] card_lines(s)[i])
}

/// Whether the game is the game that the text shows.
pub open spec fn is_game_of(game: Game, s: Seq<char>) -> bool {
    &&& game.winners@.len() == card_lines(s).len()
    &&& game.own@.len() == card_lines(s).len()
    &&& forall|i: int|
        0 <= i < card_lines(s).len() ==> (#[trigger] game.winners@[i])@ == small_numbers(
            winner_words(card_lines(s)[i]),
        )
    &&& forall|i: int|
        0 <= i < card_lines(s).len() ==> (#[trigger] game.own@[i])@ == small_numbers(
            own_words(card_lines(s)[i]),
        )
}

/// The game that the text shows, if every line that is not empty shows a card.
pub fn parse_game(input: &str) -> (game: Option<Game>)
    ensures
        game is Some == is_game_text(input@),
        game is Some ==> is_game_of(game.unwrap(), input@),
{
    let chars = to_chars(input);
    let rows = keep_non_empty(split_lines(chars.as_slice()));
    let ghost all = card_lines(input@);
    let mut winners: Vec<Card> = Vec::new();
    let mut own: Vec<Card> = Vec::new();
    let mut i: usize = 0;
    while i < rows.len()
        invariant
            i <= rows@.len(),
            texts(rows@) == all,
            all == card_lines(input@),
            winners@.len() == i,
            own@.len() == i,
            forall|k: int| 0 <= k < i ==> is_card_line(#[trigger] all[k]),
            forall|k: int|
                0 <= k < i ==> (#[trigger] winners@[k])@ == small_numbers(winner_words(all[k])),
            forall|k: int| 0 <= k < i ==> (#[trigger] own@[k])@ == small_numbers(own_words(all[k])),
        decreases rows@.len() - i,
    {
        assert(rows@[i as int]@ == all[i as int]);
        match parse_card(rows[i].as_slice()) {
            Some((winning, having)) => {
                winners.push(winning);
                own.push(having);
            },
            None => {
                return None;
            },
        }
        i += 1;
    }
    Some(Game { winners, own })
}

/// A text that shows the cards of a game.
pub trait IntoGame {
    /// The characters of the text.
    spec fn text(&self) -> Seq<char>;

    /// The game that the text shows.
    fn into_game(self) -> (game: Game)
        requires
            is_game_text(self.text()),
        ensures
            is_game_of(game, self.text()),
    ;
}

impl IntoGame for &str {
    open spec fn text(&self) -> Seq<char> {
        self@
    }

    fn into_game(self) -> (game: Game) {
        match parse_game(self) {
            Some(game) => game,
            None => vstd::pervasive::unreached(),
        }
    }
}

/// The points of a card with `count` matches: none without a match, one for the
/// first match, and twice as many with each further match.
pub open spec fn points(count: nat) -> nat
    decreases count,
{
    if count == 0 {
        0
    } else if count == 1 {
        1
    } else {
        2 * points((count - 1) as nat)
    }
}

/// The points of the first `n` cards of the game together.
pub open spec fn total_points(winners: Seq<Seq<u16>>, own: Seq<Seq<u16>>, n: int) -> nat
    decreases n,
{
    if n <= 0 {
        0
    } else {
        total_points(winners, own, n - 1) + points(matches(winners[n - 1], own[n - 1]))
    }
}

/// The points grow with the matches.
proof fn points_grow(a: nat, b: nat)
    requires
        a <= b,
    ensures
        points(a) <= points(b),
    decreases b,
{
    if a < b {
        points_grow(a, (b - 1) as nat);
    }
}

/// The points of a card with `count` matches, unless they are above `u64::MAX`.
pub fn card_points(count: usize) -> (p: Option<u64>)
    ensures
        p is Some == (points(count as nat) <= u64::MAX),
        p is Some ==> p.unwrap() == points(count as nat),
{
    if count == 0 {
        return Some(0);
    }
    let mut card_points: u64 = 1;
    let mut i: usize = 1;
    while i < count
        invariant
            1 <= i <= count,
            card_points == points(i as nat),
        decreases count - i,
    {
        proof {
            points_grow((i + 1) as nat, count as nat);
        }
        card_points = match card_points.checked_mul(2) {
            Some(p) => p,
            None => {
                return None;
            },
        };
        i += 1;
    }
    Some(card_points)
}

/// The sums of points do not get less with more cards.
proof fn total_points_grow(winners: Seq<Seq<u16>>, own: Seq<Seq<u16>>, n: int, m: int)
    requires
        0 <= n <= m,
    ensures
        total_points(winners, own, n) <= total_points(winners, own, m),
    decreases m - n,
{
    if n < m {
        total_points_grow(winners, own, n, m - 1);
    }
}

/// The points of all cards of the game together, unless they are above
/// `u64::MAX`.
pub fn try_solve_part1(game: &Game) -> (total: Option<u64>)
    requires
        game.winners@.len() >= game.own@.len(),
    ensures
        total is Some == (total_points(
            cards_of(game.winners@),
            cards_of(game.own@),
            game.own@.len() as int,
        ) <= u64::MAX),
        total is Some ==> total.unwrap() == total_points(
            cards_of(game.winners@),
            cards_of(game.own@),
            game.own@.len() as int,
        ),
{
    let ghost winners = cards_of(game.winners@);
    let ghost own = cards_of(game.own@);
    let mut total: u64 = 0;
    let mut card_index: usize = 0;
    while card_index < game.own.len()
        invariant
            card_index <= game.own@.len(),
            game.winners@.len() >= game.own@.len(),
            winners == cards_of(game.winners@),
            own == cards_of(game.own@),
            total == total_points(winners, own, card_index as int),
        decreases game.own@.len() - card_index,
    {
        let count_winning_numbers = count_matches(
            &game.winners[card_index],
            &game.own[card_index],
        );
        proof {
            total_points_grow(winners, own, card_index + 1, game.own@.len() as int);
        }
        let won_points = match card_points(count_winning_numbers) {
            Some(p) => p,
            None => {
                return None;
            },
        };
        total = match total.checked_add(won_points) {
            Some(t) => t,
            None => {
                return None;
            },
        };
        card_index += 1;
    }
    Some(total)
}

/// The points of all cards of the game together.
pub fn solve_part1(game: &Game) -> (total: u64)
    requires
        game.winners@.len() >= game.own@.len(),
        total_points(cards_of(game.winners@), cards_of(game.own@), game.own@.len() as int)
            <= u64::MAX,
    ensures
        total == total_points(cards_of(game.winners@), cards_of(game.own@), game.own@.len() as int),
{
    match try_solve_part1(game) {
        Some(total) => total,
        None => vstd::pervasive::unreached(),
    }
}

/// What the first `n` cards of the game bring, one after the other.
pub open spec fn all_won(winners: Seq<Seq<u16>>, own: Seq<Seq<u16>>, n: int) -> Seq<Seq<u16>>
    decreases n,
{
    if n <= 0 {
        Seq::empty()
    } else {
        all_won(winners, own, n - 1) + won(winners, own, n - 1)
    }
}

/// The number of cards that the player ends up with: the cards of the game
/// and all the cards that they win in turn.
pub fn solve_part2(game: &Game) -> (count: usize)
    requires
        game.winners@.len() >= game.own@.len(),
    ensures
        count == all_won(
            cards_of(game.winners@),
            cards_of(game.own@),
            game.own@.len() as int,
        ).len(),
{
    let mut winning_cards: Vec<Card> = Vec::new();
    let mut card_index: usize = 0;
    while card_index < game.own.len()
        invariant
            card_index <= game.own@.len(),
            game.winners@.len() >= game.own@.len(),
            cards_of(winning_cards@) == all_won(
                cards_of(game.winners@),
                cards_of(game.own@),
                card_index as int,
            ),
        decreases game.own@.len() - card_index,
    {
        process_card(game, card_index, &mut winning_cards);
        card_index += 1;
    }
    assert(cards_of(winning_cards@).len() == winning_cards@.len());
    winning_cards.len()
}

} // verus!
