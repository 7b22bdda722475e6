//! Galaxies in expanding space: the sum of the distances between all pairs of
//! galaxies after the empty rows and columns have grown.
use crate::text::{lines, split_lines, texts, to_chars};
use vstd::prelude::*;

verus! {

/// A galaxy at column `.0` and row `.1`.
#[derive(PartialEq, Eq, Structural, Hash, Clone, Copy, Debug)]
pub struct Galaxy(pub usize, pub usize);

/// One cell of the picture of space.
#[derive(PartialEq, Eq, Structural, Clone, Copy, Debug)]
pub enum SpaceField {
    Space,
    Galaxy,
}

impl SpaceField {
    /// The cell that a character of the picture stands for.
    pub open spec fn of_char(c: char) -> Option<SpaceField> {
        if c == '.' {
            Some(SpaceField::Space)
        } else if c == '#' {
            Some(SpaceField::Galaxy)
        } else {
            None
        }
    }

    /// Whether the cell holds a galaxy.
    pub fn is_galaxy(&self) -> (b: bool)
        ensures
            b == (*self == SpaceField::Galaxy),
    {
        matches!(self, SpaceField::Galaxy)
    }

    /// The cell that `c` stands for, if it stands for one.
    pub fn from_char(c: char) -> (field: Option<SpaceField>)
        ensures
            field == SpaceField::of_char(c),
    {
        match c {
            '.' => Some(SpaceField::Space),
            '#' => Some(SpaceField::Galaxy),
            _ => None,
        }
    }

    /// The cell that `c` stands for.
    pub fn from(c: char) -> (field: SpaceField)
        requires
            SpaceField::of_char(c) is Some,
        ensures
            Some(field) == SpaceField::of_char(c),
    {
        match SpaceField::from_char(c) {
            Some(field) => field,
            None => vstd::pervasive::unreached(),
        }
    }

    /// The character that stands for the cell.
    pub fn to_char(&self) -> (c: char)
        ensures
            SpaceField::of_char(c) == Some(*self),
    {
        match self {
            SpaceField::Space => '.',
            SpaceField::Galaxy => '#',
        }
    }
}

/// The distance between two positions on a line.
pub open spec fn apart(a: int, b: int) -> int {
    if a >= b {
        a - b
    } else {
        b - a
    }
}

/// The distance between two galaxies: the number of steps from one to the
/// other along rows and columns.
pub open spec fn distance_between(a: Galaxy, b: Galaxy) -> int {
    apart(a.0 as int, b.0 as int) + apart(a.1 as int, b.1 as int)
}

/// How many of the indices are below `x`.
pub open spec fn count_below(indices: Seq<usize>, x: int) -> nat
    decreases indices.len(),
{
    if indices.len() == 0 {
        0
    } else {
        count_below(indices.drop_last(), x) + if indices.last() < x {
            1nat
        } else {
            0nat
        }
    }
}

/// By how much a position moves for each empty row or column before it, where
/// an empty row or column becomes `scale` rows or columns. With the scale 1,
/// which is the default, it doubles.
pub open spec fn growth(scale: Option<usize>) -> int {
    match scale {
        None => 1,
        Some(n) => if n == 1 {
            1
        } else {
            n - 1
        },
    }
}

/// The position `x` after the space before it has grown.
pub open spec fn shifted(x: int, indices: Seq<usize>, scale: Option<usize>) -> int {
    x + count_below(indices, x) * growth(scale)
}

/// The counts do not get less with more indices.
proof fn count_below_grows(indices: Seq<usize>, x: int, n: int)
    requires
        0 <= n <= indices.len(),
    ensures
        count_below(indices.take(n), x) <= count_below(indices, x),
    decreases indices.len() - n,
{
    if n < indices.len() {
        count_below_grows(indices, x, n + 1);
        assert(indices.take(n + 1).drop_last() =~= indices.take(n));
    } else {
        assert(indices.take(n) =~= indices);
    }
}

/// The position `x` after the space before it has grown, if no index is below
/// `x` or the scale is not 0, and the new position is not above `usize::MAX`.
fn shift(x: usize, indices: &[usize], scale: Option<usize>) -> (moved: Option<usize>)
    ensures
        moved is Some == ((scale == Some(0usize) ==> count_below(indices@, x as int) == 0)
            && shifted(x as int, indices@, scale) <= usize::MAX),
        moved is Some ==> moved.unwrap() == shifted(x as int, indices@, scale),
{
    let factor = match scale {
        Some(factor) => factor,
        None => 1,
    };
    let ghost given = growth(scale);
    let mut moved: usize = x;
    let mut i: usize = 0;
    proof {
        assert(indices@.take(0).len() == 0);
        assert(0 * given == 0);
    }
    while i < indices.len()
        invariant
            i <= indices@.len(),
            given == growth(scale),
            factor == match scale {
                Some(n) => n,
                None => 1usize,
            },
            factor == 0 ==> count_below(indices@.take(i as int), x as int) == 0,
            moved == x + count_below(indices@.take(i as int), x as int) * given,
        decreases indices@.len() - i,
    {
        proof {
            assert(indices@.take(i + 1).drop_last() =~= indices@.take(i as int));
            count_below_grows(indices@, x as int, i + 1);
        }
        let ghost before = count_below(indices@.take(i as int), x as int);
        let ghost all = count_below(indices@, x as int);
        if indices[i] < x {
            if factor == 0 {
                return None;
            }
            let by = if factor == 1 {
                1
            } else {
                factor - 1
            };
            assert((before + 1) * given == before * given + given) by (nonlinear_arith);
            assert((before + 1) * given <= all * given) by (nonlinear_arith)
                requires
                    before + 1 <= all,
                    given >= 1,
            ;
            moved = match moved.checked_add(by) {
                Some(moved) => moved,
                None => {
                    return None;
                },
            };
        }
        i += 1;
    }
    proof {
        assert(indices@.take(indices@.len() as int) =~= indices@);
    }
    Some(moved)
}

impl Galaxy {
    /// The distance to another galaxy.
    pub fn distance(&self, other: &Galaxy) -> (d: usize)
        requires
            distance_between(*self, *other) <= usize::MAX,
        ensures
            d == distance_between(*self, *other),
    {
        let across = if self.0 >= other.0 {
            self.0 - other.0
        } else {
            other.0 - self.0
        };
        let down = if self.1 >= other.1 {
            self.1 - other.1
        } else {
            other.1 - self.1
        };
        across + down
    }

    /// Moves the galaxy to the right by the growth of the empty columns before it.
    pub fn shift_x(&mut self, x_shift_indices: &[usize], scale: Option<usize>)
        requires
            scale == Some(0usize) ==> count_below(x_shift_indices@, old(self).0 as int) == 0,
            shifted(old(self).0 as int, x_shift_indices@, scale) <= usize::MAX,
        ensures
            final(self).0 == shifted(old(self).0 as int, x_shift_indices@, scale),
            final(self).1 == old(self).1,
    {
        match shift(self.0, x_shift_indices, scale) {
            Some(moved) => {
                self.0 = moved;
            },
            None => {},
        }
    }

    /// Moves the galaxy down by the growth of the empty rows before it.
    pub fn shift_y(&mut self, y_shift_indices: &[usize], scale: Option<usize>)
        requires
            scale == Some(0usize) ==> count_below(y_shift_indices@, old(self).1 as int) == 0,
            shifted(old(self).1 as int, y_shift_indices@, scale) <= usize::MAX,
        ensures
            final(self).1 == shifted(old(self).1 as int, y_shift_indices@, scale),
            final(self).0 == old(self).0,
    {
        match shift(self.1, y_shift_indices, scale) {
            Some(moved) => {
                self.1 = moved;
            },
            None => {},
        }
    }
}

/// The picture of space that a vector of rows stands for.
pub open spec fn space_of(rows: Seq<Vec<SpaceField>>) -> Seq<Seq<SpaceField>> {
    Seq::new(rows.len(), |i: int| rows[i]@)
}

/// The galaxies of the row with index `y`, from left to right.
pub open spec fn row_galaxies(row: Seq<SpaceField>, y: int) -> Seq<Galaxy>
    decreases row.len(),
{
    if row.len() == 0 {
        Seq::empty()
    } else if row.last() == SpaceField::Galaxy {
        row_galaxies(row.drop_last(), y).push(Galaxy((row.len() - 1) as usize, y as usize))
    } else {
        row_galaxies(row.drop_last(), y)
    }
}

/// The galaxies of the picture, row by row.
pub open spec fn galaxies_of(space: Seq<Seq<SpaceField>>) -> Seq<Galaxy>
    decreases space.len(),
{
    if space.len() == 0 {
        Seq::empty()
    } else {
        galaxies_of(space.drop_last()) + row_galaxies(space.last(), space.len() - 1)
    }
}

/// Whether the row holds no galaxy.
pub open spec fn is_empty_row(row: Seq<SpaceField>) -> bool {
    forall|i: int| 0 <= i < row.len() ==> #[trigger] row[i] == SpaceField::Space
}

/// Whether column `c` of the picture holds no galaxy.
pub open spec fn is_empty_column(space: Seq<Seq<SpaceField>>, c: int) -> bool {
    forall|r: int| 0 <= r < space.len() ==> (#[trigger] space[r])[c] == SpaceField::Space
}

/// The indices of the rows without a galaxy, in ascending order.
pub open spec fn empty_rows(space: Seq<Seq<SpaceField>>) -> Seq<usize>
    decreases space.len(),
{
    if space.len() == 0 {
        Seq::empty()
    } else if is_empty_row(space.last()) {
        empty_rows(space.drop_last()).push((space.len() - 1) as usize)
    } else {
        empty_rows(space.drop_last())
    }
}

/// The indices below `n` of the columns without a galaxy, in ascending order.
pub open spec fn empty_columns(space: Seq<Seq<SpaceField>>, n: int) -> Seq<usize>
    decreases n,
{
    if n <= 0 {
        Seq::empty()
    } else if is_empty_column(space, n - 1) {
        empty_columns(space, n - 1).push((n - 1) as usize)
    } else {
        empty_columns(space, n - 1)
    }
}

/// Whether the picture has a first row and no row is shorter than it.
pub open spec fn has_columns(space: Seq<Seq<SpaceField>>) -> bool {
    space.len() > 0 && forall|r: int| 0 <= r < space.len() ==> (#[trigger] space[r]).len()
        >= space[0].len()
}

/// The galaxies of the picture, row by row and from left to right.
pub fn get_galaxies(space: &[Vec<SpaceField>]) -> (galaxies: Vec<Galaxy>)
    ensures
        galaxies@ == galaxies_of(space_of(space@)),
{
    let ghost all = space_of(space@);
    let mut galaxies: Vec<Galaxy> = Vec::new();
    let mut y: usize = 0;
    while y < space.len()
        invariant
            y <= space@.len(),
            all == space_of(space@),
            galaxies@ == galaxies_of(all.take(y as int)),
        decreases space@.len() - y,
    {
        let row = &space[y];
        let ghost before = galaxies@;
        let mut x: usize = 0;
        while x < row.len()
            invariant
                x <= row@.len(),
                galaxies@ == before + row_galaxies(row@.take(x as int), y as int),
            decreases row@.len() - x,
        {
            proof {
                assert(row@.take(x + 1).drop_last() =~= row@.take(x as int));
            }
            if row[x].is_galaxy() {
                galaxies.push(Galaxy(x, y));
                assert(galaxies@ =~= before + row_galaxies(row@.take(x + 1), y as int));
            }
            x += 1;
        }
        proof {
            assert(row@.take(row@.len() as int) =~= row@);
            assert(all.take(y + 1).drop_last() =~= all.take(y as int));
            assert(all.take(y + 1).last() == row@);
        }
        y += 1;
    }
    proof {
        assert(all.take(space@.len() as int) =~= all);
    }
    galaxies
}

/// The indices of the rows and of the columns that hold no galaxy.
pub fn get_empty_space(space: &[Vec<SpaceField>]) -> (empty: (Vec<usize>, Vec<usize>))
    requires
        has_columns(space_of(space@)),
    ensures
        empty.0@ == empty_rows(space_of(space@)),
        empty.1@ == empty_columns(space_of(space@), space@[0]@.len() as int),
{
    let ghost all = space_of(space@);
    let mut empty_rows_found: Vec<usize> = Vec::new();
    let mut r: usize = 0;
    while r < space.len()
        invariant
            r <= space@.len(),
            all == space_of(space@),
            empty_rows_found@ == empty_rows(all.take(r as int)),
        decreases space@.len() - r,
    {
        let row = &space[r];
        let mut is_empty = true;
        let mut c: usize = 0;
        while c < row.len()
            invariant
                c <= row@.len(),
                is_empty == (forall|k: int| 0 <= k < c ==> #[trigger] row@[k] == SpaceField::Space),
            decreases row@.len() - c,
        {
            if row[c] != SpaceField::Space {
                assert(row@[c as int] != SpaceField::Space);
                is_empty = false;
            }
            c += 1;
        }
        proof {
            assert(row@.take(row@.len() as int) =~= row@);
            assert(all.take(r + 1).drop_last() =~= all.take(r as int));
            assert(all.take(r + 1).last() == row@);
        }
        if is_empty {
            empty_rows_found.push(r);
        }
        r += 1;
    }
    proof {
        assert(all.take(space@.len() as int) =~= all);
    }
    let width = space[0].len();
    let mut empty_cols: Vec<usize> = Vec::new();
    let mut c: usize = 0;
    while c < width
        invariant
            c <= width,
            width == space@[0]@.len(),
            all == space_of(space@),
            has_columns(all),
            empty_cols@ == empty_columns(all, c as int),
        decreases width - c,
    {
        let mut is_empty = true;
        let mut r: usize = 0;
        while r < space.len()
            invariant
                r <= space@.len(),
                c < width,
                width == space@[0]@.len(),
                all == space_of(space@),
                has_columns(all),
                is_empty == (forall|k: int|
                    0 <= k < r ==> (#[trigger] all[k])[c as int] == SpaceField::Space),
            decreases space@.len() - r,
        {
            assert(all[r as int].len() >= all[0].len());
            if space[r][c] != SpaceField::Space {
                assert(all[r as int][c as int] != SpaceField::Space);
                is_empty = false;
            }
            r += 1;
        }
        if is_empty {
            empty_cols.push(c);
        }
        c += 1;
    }
    (empty_rows_found, empty_cols)
}

/// All pairs of two of the galaxies, the one that stands earlier first: for
/// each galaxy in turn its pairs with the galaxies before it.
pub open spec fn all_pairs(galaxies: Seq<Galaxy>) -> Seq<(Galaxy, Galaxy)>
    decreases galaxies.len(),
{
    if galaxies.len() == 0 {
        Seq::empty()
    } else {
        all_pairs(galaxies.drop_last()) + Seq::new(
            (galaxies.len() - 1) as nat,
            |i: int| (galaxies[i], galaxies.last()),
        )
    }
}

/// The pairs without those that have occurred before.
pub open spec fn without_repeats(pairs: Seq<(Galaxy, Galaxy)>) -> Seq<(Galaxy, Galaxy)>
    decreases pairs.len(),
{
    if pairs.len() == 0 {
        pairs
    } else if without_repeats(pairs.drop_last()).contains(pairs.last()) {
        without_repeats(pairs.drop_last())
    } else {
        without_repeats(pairs.drop_last()).push(pairs.last())
    }
}

/// Whether the pair is among the pairs.
fn holds_pair(pairs: &Vec<(Galaxy, Galaxy)>, pair: (Galaxy, Galaxy)) -> (found: bool)
    ensures
        found == pairs@.contains(pair),
{
    let mut i: usize = 0;
    while i < pairs.len()
        invariant
            i <= pairs@.len(),
            forall|k: int| 0 <= k < i ==> pairs@[k] != pair,
        decreases pairs@.len() - i,
    {
        if pairs[i].0 == pair.0 && pairs[i].1 == pair.1 {
            assert(pairs@[i as int] == pair);
            return true;
        }
        i += 1;
    }
    false
}

/// The set of all pairs of two of the galaxies: every pair once.
pub fn get_galaxy_pairs(galaxies: &[Galaxy]) -> (pairs: Vec<(Galaxy, Galaxy)>)
    ensures
        pairs@ == without_repeats(all_pairs(galaxies@)),
{
    let mut pairs: Vec<(Galaxy, Galaxy)> = Vec::new();
    let mut j: usize = 0;
    while j < galaxies.len()
        invariant
            j <= galaxies@.len(),
            pairs@ == without_repeats(all_pairs(galaxies@.take(j as int))),
        decreases galaxies@.len() - j,
    {
        let ghost done = all_pairs(galaxies@.take(j as int));
        let mut i: usize = 0;
        proof {
            assert(done + Seq::new(0, |k: int| (galaxies@[k], galaxies@[j as int])) =~= done);
        }
        while i < j
            invariant
                i <= j < galaxies@.len(),
                pairs@ == without_repeats(
                    done + Seq::new(i as nat, |k: int| (galaxies@[k], galaxies@[j as int])),
                ),
            decreases j - i,
        {
            let pair = (galaxies[i], galaxies[j]);
            proof {
                let now = done + Seq::new(i as nat, |k: int| (galaxies@[k], galaxies@[j as int]));
                let next = done + Seq::new(
                    (i + 1) as nat,
                    |k: int| (galaxies@[k], galaxies@[j as int]),
                );
                assert(next.drop_last() =~= now);
                assert(next.last() == pair);
            }
            if !holds_pair(&pairs, pair) {
                pairs.push(pair);
            }
            i += 1;
        }
        proof {
            let next = galaxies@.take(j + 1);
            assert(next.drop_last() =~= galaxies@.take(j as int));
            assert(Seq::new(j as nat, |k: int| (galaxies@[k], galaxies@[j as int])) =~= Seq::new(
                (next.len() - 1) as nat,
                |k: int| (next[k], next.last()),
            ));
        }
        j += 1;
    }
    proof {
        assert(galaxies@.take(galaxies@.len() as int) =~= galaxies@);
    }
    pairs
}

/// Whether every character of every line of the text stands for a cell.
pub open spec fn is_space_text(s: Seq<char>) -> bool {
    forall|r: int, c: int|
        0 <= r < lines(s).len() && 0 <= c < lines(s)[r].len() ==> SpaceField::of_char(
            #[trigger] lines(s)[r][c],
        ) is Some
}

/// The picture of space that a text shows: a row for each line, a cell for
/// each character.
pub open spec fn space_of_text(s: Seq<char>) -> Seq<Seq<SpaceField>> {
    Seq::new(
        lines(s).len(),
        |r: int| Seq::new(lines(s)[r].len(), |c: int| SpaceField::of_char(lines(s)[r][c]).unwrap()),
    )
}

/// The picture of space that the text shows, if every character stands for a cell.
pub fn try_parse_input(input: &str) -> (space: Option<Vec<Vec<SpaceField>>>)
    ensures
        space is Some == is_space_text(input@),
        space is Some ==> space_of(space.unwrap()@) == space_of_text(input@),
{
    let chars = to_chars(input);
    let rows = split_lines(chars.as_slice());
    let ghost text = lines(input@);
    let mut space: Vec<Vec<SpaceField>> = Vec::new();
    let mut r: usize = 0;
    while r < rows.len()
        invariant
            r <= rows@.len(),
            texts(rows@) == text,
            text == lines(input@),
            space@.len() == r,
            forall|i: int, j: int|
                0 <= i < r && 0 <= j < text[i].len() ==> SpaceField::of_char(
                    #[trigger] text[i][j],
                ) is Some,
            forall|i: int| 0 <= i < r ==> (#[trigger] space@[i])@.len() == text[i].len(),
            forall|i: int, j: int|
                0 <= i < r && 0 <= j < text[i].len() ==> Some(#[trigger] space@[i]@[j])
                    == SpaceField::of_char(text[i][j]),
        decreases rows@.len() - r,
    {
        let line = &rows[r];
        assert(line@ == text[r as int]);
        let mut row: Vec<SpaceField> = Vec::new();
        let mut c: usize = 0;
        while c < line.len()
            invariant
                r < rows@.len(),
                texts(rows@) == text,
                text == lines(input@),
                line@ == text[r as int],
                c <= line@.len(),
                row@.len() == c,
                forall|j: int| 0 <= j < c ==> SpaceField::of_char(#[trigger] line@[j]) == Some(row@[j]),
            decreases line@.len() - c,
        {
            match SpaceField::from_char(line[c]) {
                Some(field) => {
                    row.push(field);
                },
                None => {
                    assert(SpaceField::of_char(text[r as int][c as int]) is None);
                    return None;
                },
            }
            c += 1;
        }
        space.push(row);
        r += 1;
    }
    assert(space_of(space@) =~~= space_of_text(input@));
    Some(space)
}

/// The picture of space that the text shows.
pub fn parse_input(input: &str) -> (space: Vec<Vec<SpaceField>>)
    requires
        is_space_text(input@),
    ensures
        space_of(space@) == space_of_text(input@),
{
    match try_parse_input(input) {
        Some(space) => space,
        None => vstd::pervasive::unreached(),
    }
}

/// Whether every galaxy can be moved by the growth of the empty rows and
/// columns before it: no position gets above `usize::MAX`, and nothing is to
/// be moved where the scale is 0.
pub open spec fn can_expand(
    galaxies: Seq<Galaxy>,
    rows: Seq<usize>,
    columns: Seq<usize>,
    scale: usize,
) -> bool {
    forall|i: int|
        0 <= i < galaxies.len() ==> {
            let g = #[trigger] galaxies[i];
            &&& scale == 0 ==> count_below(columns, g.0 as int) == 0 && count_below(rows, g.1 as int)
                == 0
            &&& shifted(g.0 as int, columns, Some(scale)) <= usize::MAX
            &&& shifted(g.1 as int, rows, Some(scale)) <= usize::MAX
        }
}

/// The galaxies after space has grown.
pub open spec fn expanded(
    galaxies: Seq<Galaxy>,
    rows: Seq<usize>,
    columns: Seq<usize>,
    scale: usize,
) -> Seq<Galaxy> {
    Seq::new(
        galaxies.len(),
        |i: int|
            Galaxy(
                shifted(galaxies[i].0 as int, columns, Some(scale)) as usize,
                shifted(galaxies[i].1 as int, rows, Some(scale)) as usize,
            ),
    )
}

/// The sum of the distances of the pairs.
pub open spec fn total_distance(pairs: Seq<(Galaxy, Galaxy)>) -> int
    decreases pairs.len(),
{
    if pairs.len() == 0 {
        0
    } else {
        total_distance(pairs.drop_last()) + distance_between(pairs.last().0, pairs.last().1)
    }
}

/// The galaxies of a picture after its empty rows and columns have grown.
pub open spec fn expanded_galaxies(space: Seq<Seq<SpaceField>>, scale: usize) -> Seq<Galaxy> {
    expanded(
        galaxies_of(space),
        empty_rows(space),
        empty_columns(space, space[0].len() as int),
        scale,
    )
}

/// The sum of the distances between all pairs of galaxies of the picture that
/// the text shows, after each empty row and column has grown, if there is such
/// a sum: the text must show a picture with a first row and no shorter row,
/// the galaxies must be movable, and the sum must not be above `usize::MAX`.
pub open spec fn answer_of_text(s: Seq<char>, scale: usize) -> Option<int> {
    let space = space_of_text(s);
    let sum = total_distance(without_repeats(all_pairs(expanded_galaxies(space, scale))));
    if is_space_text(s) && has_columns(space) && can_expand(
        galaxies_of(space),
        empty_rows(space),
        empty_columns(space, space[0].len() as int),
        scale,
    ) && sum <= usize::MAX {
        Some(sum)
    } else {
        None
    }
}

/// The sum of distances does not get less with more pairs.
proof fn total_distance_grows(pairs: Seq<(Galaxy, Galaxy)>, n: int)
    requires
        0 <= n <= pairs.len(),
    ensures
        0 <= total_distance(pairs.take(n)) <= total_distance(pairs),
    decreases pairs.len() - n,
{
    if n < pairs.len() {
        total_distance_grows(pairs, n + 1);
        assert(pairs.take(n + 1).drop_last() =~= pairs.take(n));
        total_distance_is_not_negative(pairs.take(n));
    } else {
        assert(pairs.take(n) =~= pairs);
        total_distance_is_not_negative(pairs);
    }
}

proof fn total_distance_is_not_negative(pairs: Seq<(Galaxy, Galaxy)>)
    ensures
        0 <= total_distance(pairs),
    decreases pairs.len(),
{
    if pairs.len() > 0 {
        total_distance_is_not_negative(pairs.drop_last());
    }
}

/// The sum of the distances between all pairs of galaxies after each empty row
/// and column has grown, if there is such a sum.
#[verifier::loop_isolation(false)]
pub fn try_solve_by_shift(input: &str, scale: usize) -> (sum: Option<usize>)
    ensures
        sum is Some == answer_of_text(input@, scale) is Some,
        sum is Some ==> sum.unwrap() == answer_of_text(input@, scale).unwrap(),
{
    let space = match try_parse_input(input) {
        Some(space) => space,
        None => {
            return None;
        },
    };
    let ghost picture = space_of_text(input@);
    if space.len() == 0 {
        return None;
    }
    let width = space[0].len();
    let mut r: usize = 0;
    while r < space.len()
        invariant
            r <= space@.len(),
            space@.len() > 0,
            width == space@[0]@.len(),
            picture == space_of(space@),
            forall|k: int| 0 <= k < r ==> (#[trigger] picture[k]).len() >= width,
        decreases space@.len() - r,
    {
        if space[r].len() < width {
            assert(picture[r as int].len() < picture[0].len());
            return None;
        }
        r += 1;
    }
    let mut galaxies = get_galaxies(space.as_slice());
    let (empty_rows_found, empty_cols) = get_empty_space(space.as_slice());
    let ghost found = galaxies@;
    let ghost rows = empty_rows_found@;
    let ghost columns = empty_cols@;
    let mut i: usize = 0;
    while i < galaxies.len()
        invariant
            i <= galaxies@.len(),
            galaxies@.len() == found.len(),
            rows == empty_rows_found@,
            columns == empty_cols@,
            can_expand(found.take(i as int), rows, columns, scale),
            forall|k: int| 0 <= k < i ==> #[trigger] galaxies@[k] == expanded(found, rows, columns, scale)[k],
            forall|k: int| i <= k < found.len() ==> #[trigger] galaxies@[k] == found[k],
        decreases galaxies@.len() - i,
    {
        let galaxy = galaxies[i];
        let moved_x = shift(galaxy.0, empty_cols.as_slice(), Some(scale));
        let moved_y = shift(galaxy.1, empty_rows_found.as_slice(), Some(scale));
        match (moved_x, moved_y) {
            (Some(x), Some(y)) => {
                galaxies[i] = Galaxy(x, y);
                assert forall|k: int| 0 <= k < i + 1 implies {
                    let g = #[trigger] found.take(i + 1)[k];
                    &&& scale == 0 ==> count_below(columns, g.0 as int) == 0 && count_below(
                        rows,
                        g.1 as int,
                    ) == 0
                    &&& shifted(g.0 as int, columns, Some(scale)) <= usize::MAX
                    &&& shifted(g.1 as int, rows, Some(scale)) <= usize::MAX
                } by {
                    if k < i {
                        assert(found.take(i as int)[k] == found[k]);
                    }
                }
            },
            _ => {
                assert(!can_expand(found, rows, columns, scale)) by {
                    let g = found[i as int];
                }
                return None;
            },
        }
        i += 1;
    }
    proof {
        assert(found.take(found.len() as int) =~= found);
        assert(galaxies@ =~= expanded(found, rows, columns, scale));
    }
    let galaxy_pairs = get_galaxy_pairs(galaxies.as_slice());
    let mut sum: usize = 0;
    let mut i: usize = 0;
    while i < galaxy_pairs.len()
        invariant
            i <= galaxy_pairs@.len(),
            sum == total_distance(galaxy_pairs@.take(i as int)),
        decreases galaxy_pairs@.len() - i,
    {
        let (g1, g2) = galaxy_pairs[i];
        proof {
            assert(galaxy_pairs@.take(i + 1).drop_last() =~= galaxy_pairs@.take(i as int));
            total_distance_grows(galaxy_pairs@, i + 1);
        }
        let across = if g1.0 >= g2.0 {
            g1.0 - g2.0
        } else {
            g2.0 - g1.0
        };
        let down = if g1.1 >= g2.1 {
            g1.1 - g2.1
        } else {
            g2.1 - g1.1
        };
        let far = match across.checked_add(down) {
            Some(far) => far,
            None => {
                return None;
            },
        };
        sum = match sum.checked_add(far) {
            Some(sum) => sum,
            None => {
                return None;
            },
        };
        i += 1;
    }
    proof {
        assert(galaxy_pairs@.take(galaxy_pairs@.len() as int) =~= galaxy_pairs@);
    }
    Some(sum)
}

/// The sum of the distances between all pairs of galaxies after each empty row
/// and column has grown to `scale` rows or columns; with the scale 1 to two.
pub fn solve_by_shift(input: &str, scale: usize) -> (sum: usize)
    requires
        answer_of_text(input@, scale) is Some,
    ensures
        sum == answer_of_text(input@, scale).unwrap(),
{
    match try_solve_by_shift(input, scale) {
        Some(sum) => sum,
        None => vstd::pervasive::unreached(),
    }
}

/// The sum of the distances where every empty row and column has doubled.
pub fn solve_part1(input: &str) -> (sum: usize)
    requires
        answer_of_text(input@, 1) is Some,
    ensures
        sum == answer_of_text(input@, 1).unwrap(),
{
    solve_by_shift(input, 1)
}

/// The sum of the distances where every empty row and column has grown to a
/// million rows or columns.
pub fn solve_part_2(input: &str) -> (sum: usize)
    requires
        answer_of_text(input@, 1_000_000) is Some,
    ensures
        sum == answer_of_text(input@, 1_000_000).unwrap(),
{
    solve_by_shift(input, 1_000_000)
}

} // verus!
