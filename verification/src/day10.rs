//! The pipe maze: a grid of pipe segments with one start cell, and the
//! farthest point of the loop that runs through the start.
use crate::text::{lines, lines_fit_in_text, split_lines, texts, to_chars, total_len};
use vstd::prelude::*;

verus! {

/// A direction of travel on the grid.
#[derive(PartialEq, Eq, Structural, Clone, Copy, Debug)]
pub enum Direction {
    North,
    South,
    East,
    West,
}

/// The shape of one cell: a pipe with two openings, the ground, or the start.
#[derive(PartialEq, Eq, Structural, Clone, Copy, Debug)]
pub enum PipeDirection {
    SouthEast,
    SouthWest,
    EastWest,
    NorthEast,
    NorthWest,
    NorthSouth,
    Ground,
    Start,
}

/// One cell of the maze with what the walks have recorded on it.
#[derive(Clone, Debug)]
pub struct Field {
    pub visited: bool,
    pub steps: Vec<u64>,
    pub pipe: PipeDirection,
}

/// What a `Field` holds, as plain values.
pub struct FieldView {
    pub visited: bool,
    pub steps: Seq<u64>,
    pub pipe: PipeDirection,
}

impl View for Field {
    type V = FieldView;

    open spec fn view(&self) -> FieldView {
        FieldView { visited: self.visited, steps: self.steps@, pipe: self.pipe }
    }
}

impl Direction {
    /// The direction that leads back.
    pub open spec fn opposite(self) -> Direction {
        match self {
            Direction::North => Direction::South,
            Direction::South => Direction::North,
            Direction::East => Direction::West,
            Direction::West => Direction::East,
        }
    }

    /// The change of the row index made by one step in this direction.
    pub open spec fn row_delta(self) -> int {
        match self {
            Direction::North => -1,
            Direction::South => 1,
            _ => 0,
        }
    }

    /// The change of the column index made by one step in this direction.
    pub open spec fn col_delta(self) -> int {
        match self {
            Direction::East => 1,
            Direction::West => -1,
            _ => 0,
        }
    }
}

impl PipeDirection {
    /// Whether the pipe has an opening on the given side of its cell.
    pub open spec fn opens(self, side: Direction) -> bool {
        match (self, side) {
            (PipeDirection::NorthSouth, Direction::North) => true,
            (PipeDirection::NorthSouth, Direction::South) => true,
            (PipeDirection::EastWest, Direction::East) => true,
            (PipeDirection::EastWest, Direction::West) => true,
            (PipeDirection::NorthEast, Direction::North) => true,
            (PipeDirection::NorthEast, Direction::East) => true,
            (PipeDirection::NorthWest, Direction::North) => true,
            (PipeDirection::NorthWest, Direction::West) => true,
            (PipeDirection::SouthEast, Direction::South) => true,
            (PipeDirection::SouthEast, Direction::East) => true,
            (PipeDirection::SouthWest, Direction::South) => true,
            (PipeDirection::SouthWest, Direction::West) => true,
            _ => false,
        }
    }

    /// Whether a walker travelling in `direction` can enter the pipe: the pipe
    /// must open towards the cell the walker comes from.
    pub open spec fn accepts(self, direction: Direction) -> bool {
        self.opens(direction.opposite())
    }

    /// The direction in which a walker leaves the pipe that it has entered
    /// travelling in `direction`: through the other opening. There is none if
    /// the pipe does not accept the walker.
    pub open spec fn leaves(self, direction: Direction) -> Option<Direction> {
        match (self, direction) {
            (PipeDirection::NorthSouth, Direction::North) => Some(Direction::North),
            (PipeDirection::NorthSouth, Direction::South) => Some(Direction::South),
            (PipeDirection::NorthEast, Direction::South) => Some(Direction::East),
            (PipeDirection::NorthEast, Direction::West) => Some(Direction::North),
            (PipeDirection::NorthWest, Direction::South) => Some(Direction::West),
            (PipeDirection::NorthWest, Direction::East) => Some(Direction::North),
            (PipeDirection::SouthEast, Direction::North) => Some(Direction::East),
            (PipeDirection::SouthEast, Direction::West) => Some(Direction::South),
            (PipeDirection::SouthWest, Direction::North) => Some(Direction::West),
            (PipeDirection::SouthWest, Direction::East) => Some(Direction::South),
            (PipeDirection::EastWest, Direction::East) => Some(Direction::East),
            (PipeDirection::EastWest, Direction::West) => Some(Direction::West),
            _ => None,
        }
    }

    /// The shape that a character of the maze text stands for.
    pub open spec fn of_char(c: char) -> Option<PipeDirection> {
        if c == 'F' {
            Some(PipeDirection::SouthEast)
        } else if c == '7' {
            Some(PipeDirection::SouthWest)
        } else if c == '-' {
            Some(PipeDirection::EastWest)
        } else if c == 'L' {
            Some(PipeDirection::NorthEast)
        } else if c == 'J' {
            Some(PipeDirection::NorthWest)
        } else if c == '|' {
            Some(PipeDirection::NorthSouth)
        } else if c == '.' {
            Some(PipeDirection::Ground)
        } else if c == 'S' {
            Some(PipeDirection::Start)
        } else {
            None
        }
    }

    /// The direction of departure for a given direction of arrival.
    pub fn next_direction(&self, direction: Direction) -> (next: Option<Direction>)
        ensures
            next == self.leaves(direction),
    {
        match (self, direction) {
            (PipeDirection::NorthSouth, Direction::North) => Some(Direction::North),
            (PipeDirection::NorthSouth, Direction::South) => Some(Direction::South),
            (PipeDirection::NorthEast, Direction::South) => Some(Direction::East),
            (PipeDirection::NorthEast, Direction::West) => Some(Direction::North),
            (PipeDirection::NorthWest, Direction::South) => Some(Direction::West),
            (PipeDirection::NorthWest, Direction::East) => Some(Direction::North),
            (PipeDirection::SouthEast, Direction::North) => Some(Direction::East),
            (PipeDirection::SouthEast, Direction::West) => Some(Direction::South),
            (PipeDirection::SouthWest, Direction::North) => Some(Direction::West),
            (PipeDirection::SouthWest, Direction::East) => Some(Direction::South),
            (PipeDirection::EastWest, Direction::East) => Some(Direction::East),
            (PipeDirection::EastWest, Direction::West) => Some(Direction::West),
            (PipeDirection::Ground, _) => None,
            (PipeDirection::Start, _) => None,
            (_, _) => None,
        }
    }

    /// The shape that `c` stands for, if it is a character of the maze text.
    pub fn from_char(c: char) -> (pipe: Option<PipeDirection>)
        ensures
            pipe == PipeDirection::of_char(c),
    {
        match c {
            'F' => Some(PipeDirection::SouthEast),
            '7' => Some(PipeDirection::SouthWest),
            '-' => Some(PipeDirection::EastWest),
            'L' => Some(PipeDirection::NorthEast),
            'J' => Some(PipeDirection::NorthWest),
            '|' => Some(PipeDirection::NorthSouth),
            '.' => Some(PipeDirection::Ground),
            'S' => Some(PipeDirection::Start),
            _ => None,
        }
    }

    /// The shape that the maze character `c` stands for.
    pub fn from(c: char) -> (pipe: PipeDirection)
        requires
            PipeDirection::of_char(c) is Some,
        ensures
            Some(pipe) == PipeDirection::of_char(c),
    {
        match PipeDirection::from_char(c) {
            Some(pipe) => pipe,
            None => vstd::pervasive::unreached(),
        }
    }
}

impl FieldView {
    /// The cell after a walk has come to it with the given step count.
    pub open spec fn visit(self, step_count: u64) -> FieldView {
        FieldView { visited: true, steps: self.steps.push(step_count), pipe: self.pipe }
    }

    /// Whether a walker travelling in `direction` may enter the cell: it has not
    /// been visited, and its pipe accepts the walker.
    pub open spec fn can_visit(self, direction: Direction) -> bool {
        !self.visited && self.pipe.accepts(direction)
    }

    /// A cell of the given shape on which nothing has been recorded.
    pub open spec fn fresh(pipe: PipeDirection) -> FieldView {
        FieldView { visited: false, steps: Seq::empty(), pipe }
    }
}

impl Field {
    /// A cell of the given shape that no walk has visited.
    pub fn new(direction: PipeDirection) -> (field: Field)
        ensures
            field@ == FieldView::fresh(direction),
    {
        Field { visited: false, steps: Vec::new(), pipe: direction }
    }

    /// Marks the cell as visited and records the step count of the visit.
    pub fn visit(&mut self, step_count: u64)
        ensures
            final(self)@ == old(self)@.visit(step_count),
    {
        self.visited = true;
        self.steps.push(step_count);
    }

    /// Whether a walker travelling in `direction` may enter the cell.
    pub fn can_i_visit(&self, direction: Direction) -> (allowed: bool)
        ensures
            allowed == self@.can_visit(direction),
    {
        if self.visited || self.pipe == PipeDirection::Ground || self.pipe == PipeDirection::Start {
            return false;
        }
        match (direction, &self.pipe) {
            (Direction::North, PipeDirection::NorthSouth) => true,
            (Direction::North, PipeDirection::SouthEast) => true,
            (Direction::North, PipeDirection::SouthWest) => true,
            (Direction::East, PipeDirection::EastWest) => true,
            (Direction::East, PipeDirection::NorthWest) => true,
            (Direction::East, PipeDirection::SouthWest) => true,
            (Direction::South, PipeDirection::NorthSouth) => true,
            (Direction::South, PipeDirection::NorthEast) => true,
            (Direction::South, PipeDirection::NorthWest) => true,
            (Direction::West, PipeDirection::EastWest) => true,
            (Direction::West, PipeDirection::SouthEast) => true,
            (Direction::West, PipeDirection::NorthEast) => true,
            _ => false,
        }
    }

    /// The cell that the maze character `c` stands for.
    pub fn from(c: char) -> (field: Field)
        requires
            PipeDirection::of_char(c) is Some,
        ensures
            Some(field@.pipe) == PipeDirection::of_char(c),
            field@ == FieldView::fresh(field@.pipe),
    {
        Field::new(PipeDirection::from(c))
    }
}

/// A pipe accepts a walker exactly when it has a way out for it.
pub proof fn accepted_walkers_leave(pipe: PipeDirection, direction: Direction)
    ensures
        pipe.accepts(direction) <==> pipe.leaves(direction) is Some,
        pipe.leaves(direction) is Some ==> pipe.opens(pipe.leaves(direction).unwrap()),
        pipe.leaves(direction) is Some ==> pipe.leaves(direction).unwrap() != direction.opposite(),
{
}

/// A pipe can be passed both ways: who enters through the opening that another
/// walker left by leaves through the opening by which that walker entered.
pub proof fn pipes_run_both_ways(pipe: PipeDirection, direction: Direction)
    requires
        pipe.leaves(direction) is Some,
    ensures
        pipe.leaves(pipe.leaves(direction).unwrap().opposite()) == Some(direction.opposite()),
{
}

/// The cells of a maze, row by row, as plain values.
pub type Grid = Seq<Seq<FieldView>>;

/// The grid that a vector of rows of fields stands for.
pub open spec fn cells(map: Seq<Vec<Field>>) -> Grid {
    Seq::new(map.len(), |r: int| Seq::new(map[r]@.len(), |c: int| map[r]@[c]@))
}

/// Whether row `r` and column `c` name a cell of the grid.
pub open spec fn inside(g: Grid, r: int, c: int) -> bool {
    0 <= r < g.len() && 0 <= c < g[r].len()
}

/// Whether the start cell is at row `r`, column `c`: of all cells of kind
/// `Start` it is the first in reading order.
pub open spec fn is_start(g: Grid, r: int, c: int) -> bool {
    &&& inside(g, r, c)
    &&& g[r][c].pipe == PipeDirection::Start
    &&& forall|j: int| 0 <= j < c ==> g[r][j].pipe != PipeDirection::Start
    &&& forall|i: int, j: int| 0 <= i < r && 0 <= j < g[i].len() ==> g[i][j].pipe != PipeDirection::Start
}

/// Whether the grid has a cell of kind `Start`.
pub open spec fn has_start(g: Grid) -> bool {
    exists|r: int, c: int| inside(g, r, c) && g[r][c].pipe == PipeDirection::Start
}

/// Row and column of the start cell.
pub open spec fn start_of(g: Grid) -> (int, int) {
    choose|p: (int, int)| is_start(g, p.0, p.1)
}

/// The number of cells of the grid.
pub open spec fn cell_count(g: Grid) -> nat
    decreases g.len(),
{
    if g.len() == 0 {
        0
    } else {
        cell_count(g.drop_last()) + g.last().len()
    }
}

/// The grid after the cell at row `r`, column `c` was visited with step count `n`.
pub open spec fn mark(g: Grid, r: int, c: int, n: u64) -> Grid {
    g.update(r, g[r].update(c, g[r][c].visit(n)))
}

/// The grid with all visited flags taken back.
pub open spec fn cleared(g: Grid) -> Grid {
    Seq::new(
        g.len(),
        |r: int|
            Seq::new(
                g[r].len(),
                |c: int| FieldView { visited: false, steps: g[r][c].steps, pipe: g[r][c].pipe },
            ),
    )
}

/// Whether a walker could still enter the cell from some side.
pub open spec fn open_cell(f: FieldView) -> bool {
    !f.visited && f.pipe != PipeDirection::Ground && f.pipe != PipeDirection::Start
}

/// The number of cells of a row that a walker could still enter.
pub open spec fn open_in_row(row: Seq<FieldView>) -> nat
    decreases row.len(),
{
    if row.len() == 0 {
        0
    } else {
        open_in_row(row.drop_last()) + if open_cell(row.last()) {
            1nat
        } else {
            0nat
        }
    }
}

/// The number of cells of the grid that a walker could still enter.
pub open spec fn open_cells(g: Grid) -> nat
    decreases g.len(),
{
    if g.len() == 0 {
        0
    } else {
        open_cells(g.drop_last()) + open_in_row(g.last())
    }
}

proof fn visiting_closes_a_cell_of_the_row(row: Seq<FieldView>, c: int, n: u64)
    requires
        0 <= c < row.len(),
        open_cell(row[c]),
    ensures
        open_in_row(row.update(c, row[c].visit(n))) + 1 == open_in_row(row),
    decreases row.len(),
{
    let after = row.update(c, row[c].visit(n));
    if c == row.len() - 1 {
        assert(after.drop_last() =~= row.drop_last());
    } else {
        visiting_closes_a_cell_of_the_row(row.drop_last(), c, n);
        assert(after.drop_last() =~= row.drop_last().update(c, row[c].visit(n)));
    }
}

/// A visit takes one cell away from those that can still be entered.
pub proof fn visiting_closes_a_cell(g: Grid, r: int, c: int, n: u64)
    requires
        inside(g, r, c),
        open_cell(g[r][c]),
    ensures
        open_cells(mark(g, r, c, n)) + 1 == open_cells(g),
        cell_count(mark(g, r, c, n)) == cell_count(g),
    decreases g.len(),
{
    let after = mark(g, r, c, n);
    if r == g.len() - 1 {
        assert(after.drop_last() =~= g.drop_last());
        visiting_closes_a_cell_of_the_row(g[r], c, n);
    } else {
        visiting_closes_a_cell(g.drop_last(), r, c, n);
        assert(after.drop_last() =~= mark(g.drop_last(), r, c, n));
    }
}

proof fn open_cells_of_a_row_are_cells(row: Seq<FieldView>)
    ensures
        open_in_row(row) <= row.len(),
        (exists|c: int| 0 <= c < row.len() && row[c].pipe == PipeDirection::Start) ==> open_in_row(
            row,
        ) < row.len(),
    decreases row.len(),
{
    if row.len() > 0 {
        open_cells_of_a_row_are_cells(row.drop_last());
        if exists|c: int| 0 <= c < row.len() && row[c].pipe == PipeDirection::Start {
            let c = choose|c: int| 0 <= c < row.len() && row[c].pipe == PipeDirection::Start;
            if c < row.len() - 1 {
                assert(row.drop_last()[c].pipe == PipeDirection::Start);
            }
        }
    }
}

/// The start cell can never be entered, so fewer cells are open than there are cells.
pub proof fn start_is_never_open(g: Grid)
    ensures
        open_cells(g) <= cell_count(g),
        has_start(g) ==> open_cells(g) < cell_count(g),
    decreases g.len(),
{
    if g.len() > 0 {
        start_is_never_open(g.drop_last());
        open_cells_of_a_row_are_cells(g.last());
        if has_start(g) {
            let (r, c) = choose|r: int, c: int|
                inside(g, r, c) && g[r][c].pipe == PipeDirection::Start;
            if r < g.len() - 1 {
                assert(inside(g.drop_last(), r, c) && g.drop_last()[r][c].pipe
                    == PipeDirection::Start);
            } else {
                assert(0 <= c < g.last().len() && g.last()[c].pipe == PipeDirection::Start);
            }
        }
    }
}

/// The grid after one walk.
///
/// The walker stands on the cell at row `r`, column `c`, which it has entered
/// travelling in direction `d` as its `n`-th step. It leaves through the other
/// opening of the pipe. If that leads off the grid, the walk ends at once. If the
/// next cell may be visited, the walker visits it with step count `n + 1` and
/// goes on from there. Otherwise the walk ends and all visited flags are taken
/// back.
pub open spec fn walk(g: Grid, r: int, c: int, d: Direction, n: u64) -> Grid
    decreases open_cells(g),
{
    match g[r][c].pipe.leaves(d) {
        None => cleared(g),
        Some(next) => {
            let r2 = r + next.row_delta();
            let c2 = c + next.col_delta();
            if !inside(g, r2, c2) {
                g
            } else if g[r2][c2].can_visit(next) {
                proof {
                    visiting_closes_a_cell(g, r2, c2, (n + 1) as u64);
                }
                walk(mark(g, r2, c2, (n + 1) as u64), r2, c2, next, (n + 1) as u64)
            } else {
                cleared(g)
            }
        },
    }
}

/// Whether the cell at row `r`, column `c` has a neighbour in direction `d`
/// that a walker coming from it may visit.
pub open spec fn enterable(g: Grid, r: int, c: int, d: Direction) -> bool {
    let r2 = r + d.row_delta();
    let c2 = c + d.col_delta();
    inside(g, r2, c2) && g[r2][c2].can_visit(d)
}

/// The grid after the neighbour of the cell at row `r`, column `c` in direction
/// `d` was tried: if there is such a neighbour and it may be visited, it is
/// visited with step count 1.
pub open spec fn probe(g: Grid, r: int, c: int, d: Direction) -> Grid {
    if enterable(g, r, c, d) {
        mark(g, r + d.row_delta(), c + d.col_delta(), 1)
    } else {
        g
    }
}

/// The grid `g` after the walk that begins on the neighbour of the cell at row
/// `r`, column `c` in direction `d`, if that neighbour could be visited in the
/// grid `at_first`; else `g`.
pub open spec fn explore(g: Grid, at_first: Grid, r: int, c: int, d: Direction) -> Grid {
    if enterable(at_first, r, c, d) {
        walk(g, r + d.row_delta(), c + d.col_delta(), d, 1)
    } else {
        g
    }
}

/// The grid after all walks: the four neighbours of the start are tried in the
/// order east, north, west, south, and then a walk is made from each of those
/// that could be visited, in the same order.
pub open spec fn traced(g: Grid) -> Grid {
    let (r, c) = start_of(g);
    let tried = probe(
        probe(probe(probe(g, r, c, Direction::East), r, c, Direction::North), r, c, Direction::West),
        r,
        c,
        Direction::South,
    );
    explore(
        explore(
            explore(explore(tried, g, r, c, Direction::East), g, r, c, Direction::North),
            g,
            r,
            c,
            Direction::West,
        ),
        g,
        r,
        c,
        Direction::South,
    )
}

/// Whether the walk comes back to the start: it ends because the next cell
/// of the walker is the start cell. The walk is the one that `walk` describes.
pub open spec fn walk_returns(g: Grid, r: int, c: int, d: Direction, n: u64) -> bool
    decreases open_cells(g),
{
    match g[r][c].pipe.leaves(d) {
        None => false,
        Some(next) => {
            let r2 = r + next.row_delta();
            let c2 = c + next.col_delta();
            if !inside(g, r2, c2) {
                false
            } else if g[r2][c2].can_visit(next) {
                proof {
                    visiting_closes_a_cell(g, r2, c2, (n + 1) as u64);
                }
                walk_returns(mark(g, r2, c2, (n + 1) as u64), r2, c2, next, (n + 1) as u64)
            } else {
                g[r2][c2].pipe == PipeDirection::Start
            }
        },
    }
}

/// Whether the walk that `explore` describes is made and comes back to the start.
pub open spec fn explore_returns(g: Grid, at_first: Grid, r: int, c: int, d: Direction) -> bool {
    enterable(at_first, r, c, d) && walk_returns(g, r + d.row_delta(), c + d.col_delta(), d, 1)
}

/// 1 if the condition holds, else 0.
pub open spec fn one_if(condition: bool) -> nat {
    if condition {
        1
    } else {
        0
    }
}

/// The number of walks from the neighbours of the start that come back to the
/// start. Where a single loop runs through the start it is 1: of the two walks
/// round the loop, the first is stopped by the visit that the other neighbour
/// of the start got when the neighbours were tried.
pub open spec fn loops_found(g: Grid) -> nat {
    let (r, c) = start_of(g);
    let tried = probe(
        probe(probe(probe(g, r, c, Direction::East), r, c, Direction::North), r, c, Direction::West),
        r,
        c,
        Direction::South,
    );
    let east = explore(tried, g, r, c, Direction::East);
    let north = explore(east, g, r, c, Direction::North);
    let west = explore(north, g, r, c, Direction::West);
    one_if(explore_returns(tried, g, r, c, Direction::East)) + one_if(
        explore_returns(east, g, r, c, Direction::North),
    ) + one_if(explore_returns(north, g, r, c, Direction::West)) + one_if(
        explore_returns(west, g, r, c, Direction::South),
    )
}

/// Why a maze has no farthest point.
#[derive(PartialEq, Eq, Structural, Clone, Copy, Debug)]
pub enum MazeError {
    /// The text holds a character that stands for no cell.
    InvalidCharacter,
    /// The maze has no start.
    NoStart,
    /// No walk from the start comes back to it: there is no loop.
    NoLoop,
    /// More than one walk from the start comes back to it: the loop is not
    /// the only one.
    SeveralLoops,
}

/// The least of the recorded step counts, 0 if there is none.
pub open spec fn least(steps: Seq<u64>) -> u64
    decreases steps.len(),
{
    if steps.len() == 0 {
        0
    } else if steps.len() == 1 {
        steps[0]
    } else if steps.last() < least(steps.drop_last()) {
        steps.last()
    } else {
        least(steps.drop_last())
    }
}

/// The greatest over the cells of a row of the least step count recorded on it.
pub open spec fn farthest_in_row(row: Seq<FieldView>) -> u64
    decreases row.len(),
{
    if row.len() == 0 {
        0
    } else if least(row.last().steps) > farthest_in_row(row.drop_last()) {
        least(row.last().steps)
    } else {
        farthest_in_row(row.drop_last())
    }
}

/// The greatest over all cells of the least step count recorded on the cell.
pub open spec fn farthest(g: Grid) -> u64
    decreases g.len(),
{
    if g.len() == 0 {
        0
    } else if farthest_in_row(g.last()) > farthest(g.drop_last()) {
        farthest_in_row(g.last())
    } else {
        farthest(g.drop_last())
    }
}

/// Takes back the visited flags of all cells.
fn clear_visited(map: &mut Vec<Vec<Field>>)
    ensures
        cells(final(map)@) == cleared(cells(old(map)@)),
{
    let mut r: usize = 0;
    while r < map.len()
        invariant
            r <= map@.len(),
            map@.len() == old(map)@.len(),
            forall|i: int| 0 <= i < map@.len() ==> (#[trigger] map@[i])@.len() == old(map)@[i]@.len(),
            forall|i: int, j: int|
                0 <= i < r && 0 <= j < map@[i]@.len() ==> (#[trigger] map@[i]@[j])@ == cleared(
                    cells(old(map)@),
                )[i][j],
            forall|i: int| r <= i < map@.len() ==> #[trigger] map@[i] == old(map)@[i],
        decreases map@.len() - r,
    {
        let mut c: usize = 0;
        while c < map[r].len()
            invariant
                r < map@.len(),
                c <= map@[r as int]@.len(),
                map@.len() == old(map)@.len(),
                forall|i: int|
                    0 <= i < map@.len() ==> (#[trigger] map@[i])@.len() == old(map)@[i]@.len(),
                forall|i: int, j: int|
                    0 <= i < r && 0 <= j < map@[i]@.len() ==> (#[trigger] map@[i]@[j])@ == cleared(
                        cells(old(map)@),
                    )[i][j],
                forall|i: int| r < i < map@.len() ==> #[trigger] map@[i] == old(map)@[i],
                forall|j: int|
                    0 <= j < c ==> (#[trigger] map@[r as int]@[j])@ == cleared(cells(old(map)@))[r as int][j],
                forall|j: int|
                    c <= j < map@[r as int]@.len() ==> #[trigger] map@[r as int]@[j] == old(
                        map,
                    )@[r as int]@[j],
            decreases map@[r as int]@.len() - c,
        {
            map[r][c].visited = false;
            c += 1;
        }
        r += 1;
    }
    assert(cells(map@) =~~= cleared(cells(old(map)@)));
}

/// Whether two grids have the same cells with the same pipes; what the walks
/// have recorded on them may differ.
pub open spec fn same_maze(a: Grid, b: Grid) -> bool {
    &&& a.len() == b.len()
    &&& forall|r: int| 0 <= r < a.len() ==> (#[trigger] a[r]).len() == b[r].len()
    &&& forall|r: int, c: int| inside(a, r, c) ==> (#[trigger] a[r][c]).pipe == b[r][c].pipe
}

/// Grids of the same maze have the same number of cells and the same start.
pub proof fn same_maze_has_same_start(a: Grid, b: Grid)
    requires
        same_maze(a, b),
    ensures
        cell_count(a) == cell_count(b),
        has_start(a) == has_start(b),
        forall|r: int, c: int| is_start(a, r, c) == is_start(b, r, c),
    decreases a.len(),
{
    if a.len() > 0 {
        assert(same_maze(a.drop_last(), b.drop_last())) by {
            assert forall|r: int, c: int| inside(a.drop_last(), r, c) implies (
            #[trigger] a.drop_last()[r][c]).pipe == b.drop_last()[r][c].pipe by {
                assert(inside(a, r, c));
            }
        }
        same_maze_has_same_start(a.drop_last(), b.drop_last());
    }
    if has_start(a) {
        let (r, c) = choose|r: int, c: int| inside(a, r, c) && a[r][c].pipe == PipeDirection::Start;
        assert(inside(b, r, c) && b[r][c].pipe == PipeDirection::Start);
    }
    if has_start(b) {
        let (r, c) = choose|r: int, c: int| inside(b, r, c) && b[r][c].pipe == PipeDirection::Start;
        assert(inside(a, r, c) && a[r][c].pipe == PipeDirection::Start);
    }
    assert forall|r: int, c: int| is_start(a, r, c) == is_start(b, r, c) by {
        if inside(a, r, c) {
            assert forall|i: int, j: int| 0 <= i < r && 0 <= j < a[i].len() implies (a[i][j].pipe
                != PipeDirection::Start) == (b[i][j].pipe != PipeDirection::Start) by {
                assert(inside(a, i, j));
            }
            assert forall|j: int| 0 <= j < c implies (a[r][j].pipe != PipeDirection::Start) == (
            b[r][j].pipe != PipeDirection::Start) by {
                assert(inside(a, r, j));
            }
        }
    }
}

/// A walk changes nothing but what is recorded on the cells.
pub proof fn walk_keeps_the_maze(g: Grid, r: int, c: int, d: Direction, n: u64)
    requires
        inside(g, r, c),
    ensures
        same_maze(g, walk(g, r, c, d, n)),
    decreases open_cells(g),
{
    match g[r][c].pipe.leaves(d) {
        None => {},
        Some(next) => {
            let r2 = r + next.row_delta();
            let c2 = c + next.col_delta();
            if inside(g, r2, c2) && g[r2][c2].can_visit(next) {
                let after = mark(g, r2, c2, (n + 1) as u64);
                visiting_closes_a_cell(g, r2, c2, (n + 1) as u64);
                walk_keeps_the_maze(after, r2, c2, next, (n + 1) as u64);
                assert(same_maze(g, after));
            }
        },
    }
}

/// There is only one start cell.
pub proof fn start_is_unique(g: Grid, r: int, c: int)
    requires
        is_start(g, r, c),
    ensures
        start_of(g) == (r, c),
{
    let found = (r, c);
    assert(is_start(g, found.0, found.1));
    let p = start_of(g);
    assert(is_start(g, p.0, p.1));
}

/// The least recorded step count, 0 if there is none.
fn least_of(steps: &Vec<u64>) -> (m: u64)
    ensures
        m == least(steps@),
{
    let mut m: u64 = 0;
    let mut i: usize = 0;
    while i < steps.len()
        invariant
            i <= steps@.len(),
            m == least(steps@.take(i as int)),
        decreases steps@.len() - i,
    {
        proof {
            assert(steps@.take(i + 1).drop_last() =~= steps@.take(i as int));
        }
        if i == 0 || steps[i] < m {
            m = steps[i];
        }
        i += 1;
    }
    proof {
        assert(steps@.take(steps@.len() as int) =~= steps@);
    }
    m
}

/// The greatest over all cells of the least step count recorded on the cell.
fn farthest_of(map: &Vec<Vec<Field>>) -> (m: u64)
    ensures
        m == farthest(cells(map@)),
{
    let ghost g = cells(map@);
    let mut m: u64 = 0;
    let mut r: usize = 0;
    while r < map.len()
        invariant
            r <= map@.len(),
            g == cells(map@),
            m == farthest(g.take(r as int)),
        decreases map@.len() - r,
    {
        let row = &map[r];
        let mut in_row: u64 = 0;
        let mut c: usize = 0;
        while c < row.len()
            invariant
                r < map@.len(),
                row == map@[r as int],
                g == cells(map@),
                c <= row@.len(),
                in_row == farthest_in_row(g[r as int].take(c as int)),
            decreases row@.len() - c,
        {
            proof {
                assert(g[r as int].take(c + 1).drop_last() =~= g[r as int].take(c as int));
            }
            let here = least_of(&row[c].steps);
            if here > in_row {
                in_row = here;
            }
            c += 1;
        }
        proof {
            assert(g[r as int].take(row@.len() as int) =~= g[r as int]);
            assert(g.take(r + 1).drop_last() =~= g.take(r as int));
        }
        if in_row > m {
            m = in_row;
        }
        r += 1;
    }
    proof {
        assert(g.take(map@.len() as int) =~= g);
    }
    m
}

/// Row and column of the start cell, if there is one.
fn find_start(map: &Vec<Vec<Field>>) -> (found: Option<(usize, usize)>)
    ensures
        found is Some == has_start(cells(map@)),
        found is Some ==> is_start(cells(map@), found.unwrap().0 as int, found.unwrap().1 as int),
{
    let ghost g = cells(map@);
    let mut r: usize = 0;
    while r < map.len()
        invariant
            r <= map@.len(),
            g == cells(map@),
            forall|i: int, j: int|
                0 <= i < r && 0 <= j < g[i].len() ==> (#[trigger] g[i][j]).pipe != PipeDirection::Start,
        decreases map@.len() - r,
    {
        let row = &map[r];
        let mut c: usize = 0;
        while c < row.len()
            invariant
                r < map@.len(),
                row == map@[r as int],
                g == cells(map@),
                c <= row@.len(),
                forall|i: int, j: int|
                    0 <= i < r && 0 <= j < g[i].len() ==> (#[trigger] g[i][j]).pipe
                        != PipeDirection::Start,
                forall|j: int| 0 <= j < c ==> (#[trigger] g[r as int][j]).pipe != PipeDirection::Start,
            decreases row@.len() - c,
        {
            if row[c].pipe == PipeDirection::Start {
                assert(inside(g, r as int, c as int) && g[r as int][c as int].pipe
                    == PipeDirection::Start);
                return Some((r, c));
            }
            c += 1;
        }
        r += 1;
    }
    assert(!has_start(g)) by {
        if has_start(g) {
            let (i, j) = choose|i: int, j: int| inside(g, i, j) && g[i][j].pipe == PipeDirection::Start;
            assert(g[i][j].pipe != PipeDirection::Start);
        }
    }
    None
}

/// The cell next to row `r`, column `c` in direction `d`, unless that is off the grid.
fn neighbour(map: &Vec<Vec<Field>>, r: usize, c: usize, d: Direction) -> (next: Option<
    (usize, usize),
>)
    requires
        inside(cells(map@), r as int, c as int),
    ensures
        next is Some == inside(cells(map@), r + d.row_delta(), c + d.col_delta()),
        next is Some ==> next.unwrap().0 == r + d.row_delta() && next.unwrap().1 == c + d.col_delta(),
{
    let (r2, c2) = match d {
        Direction::North => {
            if r == 0 {
                return None;
            }
            (r - 1, c)
        },
        Direction::South => {
            if r == map.len() - 1 {
                return None;
            }
            (r + 1, c)
        },
        Direction::East => {
            if c == map[r].len() - 1 {
                return None;
            }
            (r, c + 1)
        },
        Direction::West => {
            if c == 0 {
                return None;
            }
            (r, c - 1)
        },
    };
    if c2 < map[r2].len() {
        Some((r2, c2))
    } else {
        None
    }
}

/// Trying one neighbour changes nothing for the neighbours on the other sides.
pub proof fn probe_keeps_other_neighbours(g: Grid, r: int, c: int, d: Direction, e: Direction)
    requires
        inside(g, r, c),
        d != e,
    ensures
        enterable(probe(g, r, c, d), r, c, e) == enterable(g, r, c, e),
        same_maze(g, probe(g, r, c, d)),
{
}

/// Tries the neighbour of the cell at row `r`, column `c` in direction `d`,
/// and visits it with step count 1 if that is allowed.
fn try_neighbour(map: &mut Vec<Vec<Field>>, r: usize, c: usize, d: Direction) -> (entered: Option<
    (usize, usize),
>)
    requires
        inside(cells(old(map)@), r as int, c as int),
    ensures
        cells(final(map)@) == probe(cells(old(map)@), r as int, c as int, d),
        entered is Some == enterable(cells(old(map)@), r as int, c as int, d),
        entered is Some ==> entered.unwrap().0 == r + d.row_delta() && entered.unwrap().1 == c
            + d.col_delta(),
{
    match neighbour(map, r, c, d) {
        None => None,
        Some((r2, c2)) => {
            if map[r2][c2].can_i_visit(d) {
                map[r2][c2].visit(1);
                assert(cells(map@) =~~= mark(cells(old(map)@), r2 as int, c2 as int, 1));
                Some((r2, c2))
            } else {
                None
            }
        },
    }
}

/// Walks from the cell at row `r`, column `c`, which was entered travelling in
/// direction `d` with step count 1, until the walk ends.
fn follow(map: &mut Vec<Vec<Field>>, r: usize, c: usize, d: Direction) -> (came_back: bool)
    requires
        inside(cells(old(map)@), r as int, c as int),
        has_start(cells(old(map)@)),
        cell_count(cells(old(map)@)) <= u64::MAX,
    ensures
        cells(final(map)@) == walk(cells(old(map)@), r as int, c as int, d, 1),
        came_back == walk_returns(cells(old(map)@), r as int, c as int, d, 1),
{
    let mut came_back = false;
    let mut current_y: usize = r;
    let mut current_x: usize = c;
    let mut current_direction: Direction = d;
    let mut steps: u64 = 1;
    proof {
        start_is_never_open(cells(map@));
    }
    loop
        invariant_except_break
            inside(cells(map@), current_y as int, current_x as int),
            steps >= 1,
            steps + open_cells(cells(map@)) <= cell_count(cells(map@)) <= u64::MAX,
            walk(cells(map@), current_y as int, current_x as int, current_direction, steps) == walk(
                cells(old(map)@),
                r as int,
                c as int,
                d,
                1,
            ),
            walk_returns(cells(map@), current_y as int, current_x as int, current_direction, steps)
                == walk_returns(cells(old(map)@), r as int, c as int, d, 1),
            !came_back,
        ensures
            cells(map@) == walk(cells(old(map)@), r as int, c as int, d, 1),
            came_back == walk_returns(cells(old(map)@), r as int, c as int, d, 1),
        decreases open_cells(cells(map@)),
    {
        let ghost g = cells(map@);
        let next_possible_direction = map[current_y][current_x].pipe.next_direction(
            current_direction,
        );
        match next_possible_direction {
            None => {
                clear_visited(map);
                break ;
            },
            Some(next_direction) => {
                match neighbour(map, current_y, current_x, next_direction) {
                    None => {
                        break ;
                    },
                    Some((next_y, next_x)) => {
                        if map[next_y][next_x].can_i_visit(next_direction) {
                            proof {
                                visiting_closes_a_cell(
                                    g,
                                    next_y as int,
                                    next_x as int,
                                    (steps + 1) as u64,
                                );
                            }
                            steps += 1;
                            map[next_y][next_x].visit(steps);
                            assert(cells(map@) =~~= mark(g, next_y as int, next_x as int, steps));
                            current_y = next_y;
                            current_x = next_x;
                            current_direction = next_direction;
                        } else {
                            came_back = map[next_y][next_x].pipe == PipeDirection::Start;
                            clear_visited(map);
                            break ;
                        }
                    },
                }
            },
        }
    }
    came_back
}

/// Makes the walk that begins on the neighbour that was entered, if one was.
fn follow_from(map: &mut Vec<Vec<Field>>, entered: Option<(usize, usize)>, d: Direction) -> (came_back:
    bool)
    requires
        entered is Some ==> inside(
            cells(old(map)@),
            entered.unwrap().0 as int,
            entered.unwrap().1 as int,
        ),
        has_start(cells(old(map)@)),
        cell_count(cells(old(map)@)) <= u64::MAX,
    ensures
        cells(final(map)@) == match entered {
            Some(at) => walk(cells(old(map)@), at.0 as int, at.1 as int, d, 1),
            None => cells(old(map)@),
        },
        same_maze(cells(old(map)@), cells(final(map)@)),
        came_back == match entered {
            Some(at) => walk_returns(cells(old(map)@), at.0 as int, at.1 as int, d, 1),
            None => false,
        },
{
    match entered {
        Some((r, c)) => {
            proof {
                walk_keeps_the_maze(cells(map@), r as int, c as int, d, 1);
            }
            follow(map, r, c, d)
        },
        None => false,
    }
}

/// Traces the maze: gives the farthest point, and whether a walk came back to
/// the start.
fn trace(map: Vec<Vec<Field>>) -> (found: (u64, u8))
    requires
        has_start(cells(map@)),
        cell_count(cells(map@)) <= u64::MAX,
    ensures
        found.0 == farthest(traced(cells(map@))),
        found.1 == loops_found(cells(map@)),
{
    let mut map = map;
    let ghost g = cells(map@);
    let (start_y, start_x) = match find_start(&map) {
        Some(at) => at,
        None => vstd::pervasive::unreached(),
    };
    let ghost r = start_y as int;
    let ghost c = start_x as int;
    proof {
        start_is_unique(g, r, c);
    }
    let east = try_neighbour(&mut map, start_y, start_x, Direction::East);
    let ghost g1 = cells(map@);
    proof {
        probe_keeps_other_neighbours(g, r, c, Direction::East, Direction::North);
        probe_keeps_other_neighbours(g, r, c, Direction::East, Direction::West);
        probe_keeps_other_neighbours(g, r, c, Direction::East, Direction::South);
    }
    let north = try_neighbour(&mut map, start_y, start_x, Direction::North);
    let ghost g2 = cells(map@);
    proof {
        probe_keeps_other_neighbours(g1, r, c, Direction::North, Direction::West);
        probe_keeps_other_neighbours(g1, r, c, Direction::North, Direction::South);
    }
    let west = try_neighbour(&mut map, start_y, start_x, Direction::West);
    let ghost g3 = cells(map@);
    proof {
        probe_keeps_other_neighbours(g2, r, c, Direction::West, Direction::South);
    }
    let south = try_neighbour(&mut map, start_y, start_x, Direction::South);
    let ghost g4 = cells(map@);
    proof {
        probe_keeps_other_neighbours(g3, r, c, Direction::South, Direction::East);
        assert(same_maze(g, g4));
        same_maze_has_same_start(g, g4);
    }
    let east_back = follow_from(&mut map, east, Direction::East);
    let ghost g5 = cells(map@);
    proof {
        assert(g5 == explore(g4, g, r, c, Direction::East));
        assert(same_maze(g, g5));
        same_maze_has_same_start(g, g5);
    }
    let north_back = follow_from(&mut map, north, Direction::North);
    let ghost g6 = cells(map@);
    proof {
        assert(g6 == explore(g5, g, r, c, Direction::North));
        assert(same_maze(g, g6));
        same_maze_has_same_start(g, g6);
    }
    let west_back = follow_from(&mut map, west, Direction::West);
    let ghost g7 = cells(map@);
    proof {
        assert(g7 == explore(g6, g, r, c, Direction::West));
        assert(same_maze(g, g7));
        same_maze_has_same_start(g, g7);
    }
    let south_back = follow_from(&mut map, south, Direction::South);
    assert(cells(map@) == explore(g7, g, r, c, Direction::South));
    let mut loops: u8 = 0;
    if east_back {
        loops += 1;
    }
    if north_back {
        loops += 1;
    }
    if west_back {
        loops += 1;
    }
    if south_back {
        loops += 1;
    }
    (farthest_of(&map), loops)
}

/// The farthest point of the loop through the start of the maze.
///
/// From the start the four neighbours are tried; a walk is made from each one
/// that may be entered, and every visit records its step count on the cell. The
/// result is the greatest, over all cells, of the least step count recorded on
/// the cell, where a cell without a record counts as 0. The maze must have a
/// start and one loop through it: one of the walks, and only one, must come
/// back to the start.
pub fn walk_maze(map: Vec<Vec<Field>>) -> (farthest_steps: u64)
    requires
        has_start(cells(map@)),
        loops_found(cells(map@)) == 1,
        cell_count(cells(map@)) <= u64::MAX,
    ensures
        farthest_steps == farthest(traced(cells(map@))),
{
    trace(map).0
}

/// The farthest point of the loop through the start of the maze, or the reason
/// why there is none.
pub fn try_walk_maze(map: Vec<Vec<Field>>) -> (farthest_steps: Result<u64, MazeError>)
    requires
        cell_count(cells(map@)) <= u64::MAX,
    ensures
        match farthest_steps {
            Ok(steps) => has_start(cells(map@)) && loops_found(cells(map@)) == 1 && steps
                == farthest(traced(cells(map@))),
            Err(MazeError::NoStart) => !has_start(cells(map@)),
            Err(MazeError::NoLoop) => has_start(cells(map@)) && loops_found(cells(map@)) == 0,
            Err(MazeError::SeveralLoops) => has_start(cells(map@)) && loops_found(cells(map@)) > 1,
            Err(MazeError::InvalidCharacter) => false,
        },
{
    if find_start(&map).is_none() {
        return Err(MazeError::NoStart);
    }
    let (farthest_steps, loops) = trace(map);
    if loops == 0 {
        Err(MazeError::NoLoop)
    } else if loops == 1 {
        Ok(farthest_steps)
    } else {
        Err(MazeError::SeveralLoops)
    }
}

/// Whether every character of every line of the text stands for a cell.
pub open spec fn is_maze_text(s: Seq<char>) -> bool {
    forall|r: int, c: int|
        0 <= r < lines(s).len() && 0 <= c < lines(s)[r].len() ==> PipeDirection::of_char(
            #[trigger] lines(s)[r][c],
        ) is Some
}

/// The maze that a text stands for: one row for each line, one cell for each
/// character, and nothing recorded on any cell.
pub open spec fn maze_of(s: Seq<char>) -> Grid {
    Seq::new(
        lines(s).len(),
        |r: int|
            Seq::new(
                lines(s)[r].len(),
                |c: int| FieldView::fresh(PipeDirection::of_char(lines(s)[r][c]).unwrap()),
            ),
    )
}

proof fn cells_are_characters(g: Grid, rows: Seq<Seq<char>>)
    requires
        g.len() == rows.len(),
        forall|r: int| 0 <= r < g.len() ==> (#[trigger] g[r]).len() == rows[r].len(),
    ensures
        cell_count(g) == total_len(rows),
    decreases g.len(),
{
    if g.len() > 0 {
        cells_are_characters(g.drop_last(), rows.drop_last());
    }
}

/// A maze has no more cells than its text has characters.
pub proof fn maze_fits_in_text(s: Seq<char>)
    ensures
        cell_count(maze_of(s)) <= s.len(),
{
    cells_are_characters(maze_of(s), lines(s));
    lines_fit_in_text(s);
}

/// The maze that the text stands for, if every character of it stands for a cell.
pub fn parse_maze(input: &str) -> (map: Option<Vec<Vec<Field>>>)
    ensures
        map is Some == is_maze_text(input@),
        map is Some ==> cells(map.unwrap()@) == maze_of(input@),
        map is Some ==> cell_count(cells(map.unwrap()@)) <= usize::MAX,
{
    let chars = to_chars(input);
    assert(input@.len() <= usize::MAX) by {
        assert(chars@.len() == chars.len());
    }
    let rows = split_lines(chars.as_slice());
    let ghost text = lines(input@);
    let mut map: Vec<Vec<Field>> = Vec::new();
    let mut r: usize = 0;
    while r < rows.len()
        invariant
            r <= rows@.len(),
            texts(rows@) == text,
            text == lines(input@),
            map@.len() == r,
            forall|i: int, j: int|
                0 <= i < r && 0 <= j < text[i].len() ==> PipeDirection::of_char(
                    #[trigger] text[i][j],
                ) is Some,
            forall|i: int| 0 <= i < r ==> (#[trigger] map@[i])@.len() == text[i].len(),
            forall|i: int, j: int|
                0 <= i < r && 0 <= j < text[i].len() ==> (#[trigger] map@[i]@[j])@ == FieldView::fresh(
                    PipeDirection::of_char(text[i][j]).unwrap(),
                ),
        decreases rows@.len() - r,
    {
        let line = &rows[r];
        assert(line@ == text[r as int]);
        let mut row: Vec<Field> = Vec::new();
        let mut c: usize = 0;
        while c < line.len()
            invariant
                r < rows@.len(),
                texts(rows@) == text,
                text == lines(input@),
                line@ == text[r as int],
                c <= line@.len(),
                row@.len() == c,
                forall|j: int| 0 <= j < c ==> PipeDirection::of_char(#[trigger] line@[j]) is Some,
                forall|j: int|
                    0 <= j < c ==> (#[trigger] row@[j])@ == FieldView::fresh(
                        PipeDirection::of_char(line@[j]).unwrap(),
                    ),
            decreases line@.len() - c,
        {
            match PipeDirection::from_char(line[c]) {
                Some(pipe) => {
                    row.push(Field::new(pipe));
                },
                None => {
                    assert(PipeDirection::of_char(text[r as int][c as int]) is None);
                    return None;
                },
            }
            c += 1;
        }
        map.push(row);
        r += 1;
    }
    assert(cells(map@) =~~= maze_of(input@));
    proof {
        maze_fits_in_text(input@);
        assert(input@.len() <= usize::MAX);
    }
    Some(map)
}

/// The farthest point of the loop through the start of the maze that the text shows.
pub fn solve_part1(input: &str) -> (farthest_steps: u64)
    requires
        is_maze_text(input@),
        has_start(maze_of(input@)),
        loops_found(maze_of(input@)) == 1,
    ensures
        farthest_steps == farthest(traced(maze_of(input@))),
{
    let map = match parse_maze(input) {
        Some(map) => map,
        None => vstd::pervasive::unreached(),
    };
    walk_maze(map)
}

/// The farthest point of the loop through the start of the maze that the text
/// shows, or the reason why there is none.
pub fn try_solve_part1(input: &str) -> (farthest_steps: Result<u64, MazeError>)
    ensures
        match farthest_steps {
            Ok(steps) => is_maze_text(input@) && has_start(maze_of(input@)) && loops_found(
                maze_of(input@),
            ) == 1 && steps == farthest(traced(maze_of(input@))),
            Err(MazeError::InvalidCharacter) => !is_maze_text(input@),
            Err(MazeError::NoStart) => is_maze_text(input@) && !has_start(maze_of(input@)),
            Err(MazeError::NoLoop) => is_maze_text(input@) && has_start(maze_of(input@))
                && loops_found(maze_of(input@)) == 0,
            Err(MazeError::SeveralLoops) => is_maze_text(input@) && has_start(maze_of(input@))
                && loops_found(maze_of(input@)) > 1,
        },
{
    match parse_maze(input) {
        Some(map) => try_walk_maze(map),
        None => Err(MazeError::InvalidCharacter),
    }
}

} // verus!
