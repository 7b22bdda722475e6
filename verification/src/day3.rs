//! The engine schematic: numbers, symbols and empty cells in rows, the numbers
//! that have no symbol next to them, and the sum of the others.
use crate::text::{
    all_numeric, alphanumeric, decimal, is_all_numeric, is_alphanumeric, is_number, lines,
    parse_digits, split_lines, texts, to_chars,
};
use vstd::prelude::*;

verus! {

/// What a cell of the schematic holds.
#[derive(PartialEq, Eq, Structural, Debug, Clone, Copy)]
pub enum Cell {
    Empty,
    Symbol,
    Value(u16),
}

/// A cell of the schematic with its place in its row and the index of its row.
#[derive(PartialEq, Eq, Structural, Debug, Clone, Copy)]
pub struct EngineCell {
    pub value: Cell,
    pub index: usize,
    pub row: usize,
}

/// A row of the schematic.
#[derive(Debug, Clone)]
pub struct EngineRow {
    pub cells: Vec<EngineCell>,
}

/// The number of decimal digits of a number.
pub open spec fn digits(v: u16) -> nat {
    if v >= 10000 {
        5
    } else if v >= 1000 {
        4
    } else if v >= 100 {
        3
    } else if v >= 10 {
        2
    } else {
        1
    }
}

/// Whether `c` is a punctuation character of ASCII.
pub open spec fn is_punctuation(c: char) -> bool {
    ||| '!' <= c <= '/'
    ||| ':' <= c <= '@'
    ||| '[' <= c <= '`'
    ||| '{' <= c <= '~'
}

impl Cell {
    /// The number of cells that the number of a value takes in its row: the
    /// number of its digits. Other cells count as 0.
    pub open spec fn width(self) -> nat {
        match self {
            Cell::Value(v) => digits(v),
            _ => 0,
        }
    }

    /// The cell that a piece of a row stands for: a dot is an empty cell, decimal
    /// digits are a value of 16 bits, a punctuation character is a symbol.
    pub open spec fn of_text(s: Seq<char>) -> Option<Cell> {
        if s.len() == 0 {
            None
        } else if s[0] == '.' {
            Some(Cell::Empty)
        } else if crate::text::numeric(s[0]) {
            if is_number(s) && decimal(s) <= u16::MAX {
                Some(Cell::Value(decimal(s) as u16))
            } else {
                None
            }
        } else if is_punctuation(s[0]) {
            Some(Cell::Symbol)
        } else {
            None
        }
    }

    /// The number of digits of a value; 0 for other cells.
    pub fn len(&self) -> (n: usize)
        ensures
            n == self.width(),
    {
        match self {
            Cell::Value(v) => {
                if *v >= 10000 {
                    5
                } else if *v >= 1000 {
                    4
                } else if *v >= 100 {
                    3
                } else if *v >= 10 {
                    2
                } else {
                    1
                }
            },
            _ => 0,
        }
    }

    /// The cell that the piece of a row stands for, if it stands for one.
    pub fn from_chars(s: &[char]) -> (cell: Option<Cell>)
        ensures
            cell == Cell::of_text(s@),
    {
        if s.len() == 0 {
            return None;
        }
        let c = s[0];
        if c == '.' {
            Some(Cell::Empty)
        } else if crate::text::is_numeric(c) {
            match parse_digits(s) {
                Some(value) => if value <= 65535 {
                    Some(Cell::Value(value as u16))
                } else {
                    None
                },
                None => None,
            }
        } else if (c >= '!' && c <= '/') || (c >= ':' && c <= '@') || (c >= '[' && c <= '`') || (c
            >= '{' && c <= '~') {
            Some(Cell::Symbol)
        } else {
            None
        }
    }

    /// The cell that the piece of a row stands for.
    pub fn from(s: &str) -> (cell: Cell)
        requires
            Cell::of_text(s@) is Some,
        ensures
            Some(cell) == Cell::of_text(s@),
    {
        let chars = to_chars(s);
        match Cell::from_chars(chars.as_slice()) {
            Some(cell) => cell,
            None => vstd::pervasive::unreached(),
        }
    }
}

impl EngineCell {
    /// The cell with the given content, place and row.
    pub fn new(value: Cell, index: usize, row: usize) -> (cell: EngineCell)
        ensures
            cell == (EngineCell { value, index, row }),
    {
        EngineCell { value, index, row }
    }

    /// Whether the cell holds a symbol.
    pub fn is_symbol(&self) -> (b: bool)
        ensures
            b == (self.value == Cell::Symbol),
    {
        match self.value {
            Cell::Symbol => true,
            _ => false,
        }
    }
}

impl EngineRow {
    /// The row with the given cells.
    pub fn new(cells: Vec<EngineCell>) -> (row: EngineRow)
        ensures
            row.cells == cells,
    {
        EngineRow { cells }
    }
}

/// The pieces of a line, and what is left over: every character that is not
/// alphanumeric is a piece of its own; the alphanumeric characters between two
/// of them are a piece; those behind the last of them are left over.
pub open spec fn pieces(line: Seq<char>) -> (Seq<Seq<char>>, Seq<char>)
    decreases line.len(),
{
    if line.len() == 0 {
        (Seq::empty(), Seq::empty())
    } else {
        let (segments, current) = pieces(line.drop_last());
        if !alphanumeric(line.last()) {
            let closed = if current.len() > 0 {
                segments.push(current)
            } else {
                segments
            };
            (closed.push(seq![line.last()]), Seq::empty())
        } else {
            (segments, current.push(line.last()))
        }
    }
}

/// The segments of a line: its pieces, and the last of them once more. What is
/// left over behind the last piece is no segment.
pub open spec fn segments_of(line: Seq<char>) -> Seq<Seq<char>> {
    let segments = pieces(line).0;
    if segments.len() > 0 {
        segments.push(segments.last())
    } else {
        segments
    }
}

/// The number of cells that a segment makes: one for each character if all its
/// characters are numeric, else one.
pub open spec fn cells_in(segment: Seq<char>) -> nat {
    if all_numeric(segment) {
        segment.len()
    } else {
        1
    }
}

/// The cells that the segments make in the row with index `row`: each segment
/// makes its cells with its own content and with places that count on.
pub open spec fn cells_of(segments: Seq<Seq<char>>, row: usize) -> Seq<EngineCell>
    decreases segments.len(),
{
    if segments.len() == 0 {
        Seq::empty()
    } else {
        let before = cells_of(segments.drop_last(), row);
        before + Seq::new(
            cells_in(segments.last()),
            |k: int|
                EngineCell {
                    value: Cell::of_text(segments.last()).unwrap(),
                    index: (before.len() + k) as usize,
                    row,
                },
        )
    }
}

/// Whether every segment of the line stands for a cell.
pub open spec fn is_engine_line(line: Seq<char>) -> bool {
    forall|i: int|
        0 <= i < segments_of(line).len() ==> Cell::of_text(#[trigger] segments_of(line)[i]) is Some
}

/// The segments of the line.
fn split_segments(line: &[char]) -> (segments: Vec<Vec<char>>)
    ensures
        texts(segments@) == segments_of(line@),
{
    let mut segments: Vec<Vec<char>> = Vec::new();
    let mut current_segment: Vec<char> = Vec::new();
    let mut i: usize = 0;
    while i < line.len()
        invariant
            i <= line@.len(),
            (texts(segments@), current_segment@) == pieces(line@.take(i as int)),
        decreases line@.len() - i,
    {
        let ch = line[i];
        proof {
            assert(line@.take(i + 1).drop_last() =~= line@.take(i as int));
            assert(line@.take(i + 1).last() == ch);
        }
        let ghost before = texts(segments@);
        let ghost current = current_segment@;
        if !is_alphanumeric(ch) {
            if current_segment.len() > 0 {
                segments.push(current_segment);
                current_segment = Vec::new();
            }
            let mut single: Vec<char> = Vec::new();
            single.push(ch);
            assert(single@ =~= seq![ch]);
            segments.push(single);
            assert(texts(segments@) =~= (if current.len() > 0 {
                before.push(current)
            } else {
                before
            }).push(seq![ch]));
            assert(current_segment@ =~= Seq::<char>::empty());
        } else {
            current_segment.push(ch);
        }
        i += 1;
    }
    proof {
        assert(line@.take(line@.len() as int) =~= line@);
    }
    if segments.len() > 0 {
        let last = &segments[segments.len() - 1];
        let again = crate::text::copy_range(last.as_slice(), 0, last.len());
        assert(again@ =~= texts(segments@).last());
        let ghost before = texts(segments@);
        segments.push(again);
        assert(texts(segments@) =~= before.push(before.last()));
    }
    segments
}

/// The row that the line with index `row` shows, if every segment of the line
/// stands for a cell and the places of the cells are not above `usize::MAX`.
pub fn parse_row(line: &[char], row: usize) -> (engine_row: Option<EngineRow>)
    ensures
        engine_row is Some == is_engine_line(line@),
        engine_row is Some ==> engine_row.unwrap().cells@ == cells_of(segments_of(line@), row),
{
    let segments = split_segments(line);
    let ghost all = texts(segments@);
    let mut cells: Vec<EngineCell> = Vec::new();
    let mut i: usize = 0;
    while i < segments.len()
        invariant
            i <= segments@.len(),
            all == texts(segments@),
            all == segments_of(line@),
            forall|k: int| 0 <= k < i ==> Cell::of_text(#[trigger] all[k]) is Some,
            cells@ == cells_of(all.take(i as int), row),
        decreases segments@.len() - i,
    {
        let segment = &segments[i];
        assert(segment@ == all[i as int]);
        proof {
            assert(all.take(i + 1).drop_last() =~= all.take(i as int));
            assert(all.take(i + 1).last() == segment@);
        }
        let value = match Cell::from_chars(segment.as_slice()) {
            Some(value) => value,
            None => {
                return None;
            },
        };
        let ghost before = cells@;
        if is_all_numeric(segment.as_slice()) {
            let mut k: usize = 0;
            while k < segment.len()
                invariant
                    k <= segment@.len(),
                    cells@ =~= before + Seq::new(
                        k as nat,
                        |j: int| EngineCell { value, index: (before.len() + j) as usize, row },
                    ),
                decreases segment@.len() - k,
            {
                cells.push(EngineCell::new(value, cells.len(), row));
                k += 1;
            }
        } else {
            cells.push(EngineCell::new(value, cells.len(), row));
            assert(cells@ =~= before + Seq::new(
                1,
                |j: int| EngineCell { value, index: (before.len() + j) as usize, row },
            ));
        }
        i += 1;
    }
    proof {
        assert(all.take(segments@.len() as int) =~= all);
    }
    Some(EngineRow::new(cells))
}

/// The cells of the rows.
pub open spec fn row_cells(rows: Seq<EngineRow>) -> Seq<Seq<EngineCell>> {
    Seq::new(rows.len(), |i: int| rows[i].cells@)
}

/// Whether one of the cells is a symbol at a place from `low` to `high`.
pub open spec fn symbol_within(cells: Seq<EngineCell>, low: int, high: int) -> bool {
    exists|i: int|
        0 <= i < cells.len() && (#[trigger] cells[i]).value == Cell::Symbol && low <= cells[i].index
            <= high
}

/// Whether one of the cells is a symbol at the place before `start` or at the
/// place behind `end`.
pub open spec fn symbol_beside(cells: Seq<EngineCell>, start: int, end: int) -> bool {
    exists|i: int|
        0 <= i < cells.len() && (#[trigger] cells[i]).value == Cell::Symbol && ((start > 0
            && cells[i].index == start - 1) || cells[i].index == end + 1)
}

/// Whether the cell is an orphan: it holds a value, and no symbol stands
/// beside the places that the value takes from the place of the cell on,
/// neither in its own row nor, one place further on each side, in the row
/// above or in the row below.
pub open spec fn orphan(
    cell: EngineCell,
    own: Seq<EngineCell>,
    upper: Option<Seq<EngineCell>>,
    lower: Option<Seq<EngineCell>>,
) -> bool {
    match cell.value {
        Cell::Value(v) => {
            let start = cell.index as int;
            let end = cell.index + digits(v) - 1;
            let low = if start > 0 {
                start - 1
            } else {
                0
            };
            &&& !symbol_beside(own, start, end)
            &&& !(upper is Some && symbol_within(upper.unwrap(), low, end + 1))
            &&& !(lower is Some && symbol_within(lower.unwrap(), low, end + 1))
        },
        _ => false,
    }
}

/// Whether one of the cells is a symbol at a place from `low` to `high`.
fn has_symbol_within(cells: &Vec<EngineCell>, low: usize, high: usize) -> (found: bool)
    ensures
        found == symbol_within(cells@, low as int, high as int),
{
    let mut i: usize = 0;
    while i < cells.len()
        invariant
            i <= cells@.len(),
            forall|k: int|
                0 <= k < i ==> !((#[trigger] cells@[k]).value == Cell::Symbol && low <= cells@[k].index
                    <= high),
        decreases cells@.len() - i,
    {
        if cells[i].is_symbol() && cells[i].index >= low && cells[i].index <= high {
            return true;
        }
        i += 1;
    }
    false
}

/// Whether one of the cells is a symbol just before `start` or just behind `end`.
fn has_symbol_beside(cells: &Vec<EngineCell>, start: usize, end: usize) -> (found: bool)
    requires
        end < usize::MAX,
    ensures
        found == symbol_beside(cells@, start as int, end as int),
{
    let mut i: usize = 0;
    while i < cells.len()
        invariant
            i <= cells@.len(),
            end < usize::MAX,
            forall|k: int|
                0 <= k < i ==> !((#[trigger] cells@[k]).value == Cell::Symbol && ((start > 0
                    && cells@[k].index == start - 1) || cells@[k].index == end + 1)),
        decreases cells@.len() - i,
    {
        if cells[i].is_symbol() && ((start > 0 && cells[i].index == start - 1) || cells[i].index
            == end + 1) {
            return true;
        }
        i += 1;
    }
    false
}

/// Whether the cell is an orphan among the given rows.
fn check_orphan(
    cell: &EngineCell,
    own_row: &Vec<EngineCell>,
    upper_row: Option<&Vec<EngineCell>>,
    lower_row: Option<&Vec<EngineCell>>,
) -> (b: bool)
    requires
        cell.index + cell.value.width() <= usize::MAX,
    ensures
        b == orphan(
            *cell,
            own_row@,
            match upper_row {
                Some(row) => Some(row@),
                None => None,
            },
            match lower_row {
                Some(row) => Some(row@),
                None => None,
            },
        ),
{
    match cell.value {
        Cell::Value(_) => {
            let start_index = cell.index;
            let end_index = cell.index + cell.value.len() - 1;
            let low = if start_index > 0 {
                start_index - 1
            } else {
                0
            };
            let has_upper_neighbors = match upper_row {
                Some(row) => has_symbol_within(row, low, end_index + 1),
                None => false,
            };
            let has_lower_neighbors = match lower_row {
                Some(row) => has_symbol_within(row, low, end_index + 1),
                None => false,
            };
            let has_neighbors = has_symbol_beside(own_row, start_index, end_index);
            !has_neighbors && !has_upper_neighbors && !has_lower_neighbors
        },
        _ => false,
    }
}

impl EngineCell {
    /// Whether the cell is an orphan: it holds a value that has no symbol next
    /// to it in its own row, in the row above or in the row below.
    pub fn is_orphan(
        &self,
        own_row: EngineRow,
        upper_row: Option<EngineRow>,
        lower_row: Option<EngineRow>,
    ) -> (b: bool)
        requires
            self.index + self.value.width() <= usize::MAX,
        ensures
            b == orphan(
                *self,
                own_row.cells@,
                match upper_row {
                    Some(row) => Some(row.cells@),
                    None => None,
                },
                match lower_row {
                    Some(row) => Some(row.cells@),
                    None => None,
                },
            ),
    {
        let upper = match &upper_row {
            Some(row) => Some(&row.cells),
            None => None,
        };
        let lower = match &lower_row {
            Some(row) => Some(&row.cells),
            None => None,
        };
        check_orphan(self, &own_row.cells, upper, lower)
    }
}

/// Whether the cell is an orphan in the schematic: among the row with the
/// index that the cell names, the row above that one and the row below it.
pub open spec fn orphan_in(rows: Seq<Seq<EngineCell>>, cell: EngineCell) -> bool {
    orphan(
        cell,
        rows[cell.row as int],
        if cell.row > 0 {
            Some(rows[cell.row - 1])
        } else {
            None
        },
        if cell.row < rows.len() - 1 {
            Some(rows[cell.row + 1])
        } else {
            None
        },
    )
}

/// Whether every cell names a row of the schematic, and no value reaches
/// beyond the place `usize::MAX`.
pub open spec fn is_schematic(rows: Seq<Seq<EngineCell>>) -> bool {
    forall|r: int, i: int|
        0 <= r < rows.len() && 0 <= i < rows[r].len() ==> (#[trigger] rows[r][i]).row < rows.len()
            && rows[r][i].index + rows[r][i].value.width() <= usize::MAX
}

/// The values of the first `n` cells of a row, each with the mark of an orphan.
pub open spec fn marks_in_row(rows: Seq<Seq<EngineCell>>, row: Seq<EngineCell>, n: int) -> Seq<
    (u16, bool),
>
    decreases n,
{
    if n <= 0 {
        Seq::empty()
    } else {
        match row[n - 1].value {
            Cell::Value(v) => marks_in_row(rows, row, n - 1).push((v, orphan_in(rows, row[n - 1]))),
            _ => marks_in_row(rows, row, n - 1),
        }
    }
}

/// The values of the cells of the first `n` rows, each with the mark of an
/// orphan, row by row.
pub open spec fn marks_of(rows: Seq<Seq<EngineCell>>, n: int) -> Seq<(u16, bool)>
    decreases n,
{
    if n <= 0 {
        Seq::empty()
    } else {
        marks_of(rows, n - 1) + marks_in_row(rows, rows[n - 1], rows[n - 1].len() as int)
    }
}

/// How many of the marked values are `v` and orphans.
pub open spec fn orphans_of(marks: Seq<(u16, bool)>, v: u16) -> nat
    decreases marks.len(),
{
    if marks.len() == 0 {
        0
    } else {
        orphans_of(marks.drop_last(), v) + if marks.last() == (v, true) {
            1nat
        } else {
            0nat
        }
    }
}

/// Whether `v` is among the marked values.
pub open spec fn occurs(marks: Seq<(u16, bool)>, v: u16) -> bool {
    exists|i: int| 0 <= i < marks.len() && (#[trigger] marks[i]).0 == v
}

/// Whether `v` is a part number: it occurs, and the number of its cells that
/// are orphans is not the number of its digits.
pub open spec fn is_part(marks: Seq<(u16, bool)>, v: u16) -> bool {
    occurs(marks, v) && orphans_of(marks, v) != digits(v)
}

/// The sum of the part numbers below `n`, each counted once.
pub open spec fn parts_sum(marks: Seq<(u16, bool)>, n: int) -> nat
    decreases n,
{
    if n <= 0 {
        0
    } else {
        parts_sum(marks, n - 1) + if is_part(marks, (n - 1) as u16) {
            (n - 1) as nat
        } else {
            0nat
        }
    }
}

/// The sum of the part numbers below `n` is less than the sum of all numbers
/// below `n`.
proof fn parts_sum_is_small(marks: Seq<(u16, bool)>, n: int)
    requires
        0 <= n <= 65536,
    ensures
        2 * parts_sum(marks, n) <= n * n,
    decreases n,
{
    if n > 0 {
        parts_sum_is_small(marks, n - 1);
        assert(n * n == (n - 1) * (n - 1) + 2 * n - 1) by (nonlinear_arith);
    }
}

/// The values of the cells of the schematic, each with the mark of an orphan.
fn mark_values(engine_rows: &Vec<EngineRow>) -> (marks: Vec<(u16, bool)>)
    requires
        is_schematic(row_cells(engine_rows@)),
    ensures
        marks@ == marks_of(row_cells(engine_rows@), engine_rows@.len() as int),
{
    let ghost rows = row_cells(engine_rows@);
    let mut marks: Vec<(u16, bool)> = Vec::new();
    let mut r: usize = 0;
    while r < engine_rows.len()
        invariant
            r <= engine_rows@.len(),
            rows == row_cells(engine_rows@),
            is_schematic(rows),
            marks@ == marks_of(rows, r as int),
        decreases engine_rows@.len() - r,
    {
        let row = &engine_rows[r].cells;
        let ghost before = marks@;
        let mut i: usize = 0;
        while i < row.len()
            invariant
                i <= row@.len(),
                r < engine_rows@.len(),
                row@ == rows[r as int],
                rows == row_cells(engine_rows@),
                is_schematic(rows),
                marks@ == before + marks_in_row(rows, row@, i as int),
            decreases row@.len() - i,
        {
            let cell = row[i];
            assert(cell == rows[r as int][i as int]);
            match cell.value {
                Cell::Value(v) => {
                    let own_row = &engine_rows[cell.row].cells;
                    let upper_row = if cell.row > 0 {
                        Some(&engine_rows[cell.row - 1].cells)
                    } else {
                        None
                    };
                    let lower_row = if cell.row < engine_rows.len() - 1 {
                        Some(&engine_rows[cell.row + 1].cells)
                    } else {
                        None
                    };
                    let lonely = check_orphan(&cell, own_row, upper_row, lower_row);
                    marks.push((v, lonely));
                    assert(marks@ =~= before + marks_in_row(rows, row@, i + 1));
                },
                _ => {},
            }
            i += 1;
        }
        r += 1;
    }
    marks
}

/// The sum of the part numbers of the schematic: of the values of which not
/// every cell is an orphan, each value counted once.
pub fn solve(engine_rows: &Vec<EngineRow>) -> (sum: u32)
    requires
        is_schematic(row_cells(engine_rows@)),
    ensures
        sum == parts_sum(marks_of(row_cells(engine_rows@), engine_rows@.len() as int), 65536),
{
    let marks = mark_values(engine_rows);
    let mut sum: u32 = 0;
    let mut num: u32 = 0;
    while num < 65536
        invariant
            num <= 65536,
            marks@ == marks_of(row_cells(engine_rows@), engine_rows@.len() as int),
            sum == parts_sum(marks@, num as int),
        decreases 65536 - num,
    {
        let v = num as u16;
        let mut found = false;
        let mut count: usize = 0;
        let mut i: usize = 0;
        while i < marks.len()
            invariant
                i <= marks@.len(),
                count <= i,
                count == orphans_of(marks@.take(i as int), v),
                found == occurs(marks@.take(i as int), v),
            decreases marks@.len() - i,
        {
            proof {
                assert(marks@.take(i + 1).drop_last() =~= marks@.take(i as int));
                let now = marks@.take(i + 1);
                let old = marks@.take(i as int);
                if occurs(old, v) {
                    let k = choose|k: int| 0 <= k < old.len() && (#[trigger] old[k]).0 == v;
                    assert(now[k].0 == v);
                }
                if marks@[i as int].0 == v {
                    assert(now[i as int].0 == v);
                }
                if occurs(now, v) && marks@[i as int].0 != v {
                    let k = choose|k: int| 0 <= k < now.len() && (#[trigger] now[k]).0 == v;
                    assert(old[k].0 == v);
                }
            }
            if marks[i].0 == v {
                found = true;
                if marks[i].1 {
                    count += 1;
                }
            }
            i += 1;
        }
        proof {
            assert(marks@.take(marks@.len() as int) =~= marks@);
            parts_sum_is_small(marks@, num + 1);
            assert((num + 1) * (num + 1) <= 65536 * 65536) by (nonlinear_arith)
                requires
                    0 <= num + 1 <= 65536,
            ;
        }
        if found && count != Cell::Value(v).len() {
            sum = sum + num;
        }
        num += 1;
    }
    sum
}

/// Whether every line of the text that is not empty shows a row.
pub open spec fn is_engine_text(s: Seq<char>) -> bool {
    forall|i: int|
        0 <= i < lines(s).len() && lines(s)[i].len() > 0 ==> is_engine_line(#[trigger] lines(s)[i])
}

/// The rows that the first `n` lines of the text show: a row for each line
/// that is not empty, with the index of the line as the index of the row.
pub open spec fn rows_of_text(s: Seq<char>, n: int) -> Seq<Seq<EngineCell>>
    decreases n,
{
    if n <= 0 {
        Seq::empty()
    } else if lines(s)[n - 1].len() == 0 {
        rows_of_text(s, n - 1)
    } else {
        rows_of_text(s, n - 1).push(cells_of(segments_of(lines(s)[n - 1]), (n - 1) as usize))
    }
}

/// The rows that the text shows, if every line that is not empty shows a row.
pub fn parse_engine_rows(input: &str) -> (rows: Option<Vec<EngineRow>>)
    ensures
        rows is Some == is_engine_text(input@),
        rows is Some ==> row_cells(rows.unwrap()@) == rows_of_text(
            input@,
            lines(input@).len() as int,
        ),
{
    let chars = to_chars(input);
    let text_lines = split_lines(chars.as_slice());
    let ghost all = lines(input@);
    let mut rows: Vec<EngineRow> = Vec::new();
    let mut row: usize = 0;
    while row < text_lines.len()
        invariant
            row <= text_lines@.len(),
            texts(text_lines@) == all,
            all == lines(input@),
            forall|k: int| 0 <= k < row && all[k].len() > 0 ==> is_engine_line(#[trigger] all[k]),
            row_cells(rows@) =~= rows_of_text(input@, row as int),
        decreases text_lines@.len() - row,
    {
        assert(text_lines@[row as int]@ == all[row as int]);
        if text_lines[row].len() > 0 {
            match parse_row(text_lines[row].as_slice(), row) {
                Some(engine_row) => {
                    let ghost before = row_cells(rows@);
                    rows.push(engine_row);
                    assert(row_cells(rows@) =~= before.push(engine_row.cells@));
                },
                None => {
                    return None;
                },
            }
        }
        row += 1;
    }
    Some(rows)
}

/// A text that shows the rows of a schematic.
pub trait IntoEngineRows {
    /// The characters of the text.
    spec fn text(&self) -> Seq<char>;

    /// The rows that the text shows.
    fn into_engine_rows(&self) -> (rows: Vec<EngineRow>)
        requires
            is_engine_text(self.text()),
        ensures
            row_cells(rows@) == rows_of_text(self.text(), lines(self.text()).len() as int),
    ;
}

impl IntoEngineRows for &str {
    open spec fn text(&self) -> Seq<char> {
        self@
    }

    fn into_engine_rows(&self) -> (rows: Vec<EngineRow>) {
        match parse_engine_rows(self) {
            Some(rows) => rows,
            None => vstd::pervasive::unreached(),
        }
    }
}

/// Whether every cell names a row of the schematic and no value reaches
/// beyond the place `usize::MAX`.
fn check_schematic(engine_rows: &Vec<EngineRow>) -> (b: bool)
    ensures
        b == is_schematic(row_cells(engine_rows@)),
{
    let ghost rows = row_cells(engine_rows@);
    let mut r: usize = 0;
    while r < engine_rows.len()
        invariant
            r <= engine_rows@.len(),
            rows == row_cells(engine_rows@),
            forall|k: int, i: int|
                0 <= k < r && 0 <= i < rows[k].len() ==> (#[trigger] rows[k][i]).row < rows.len()
                    && rows[k][i].index + rows[k][i].value.width() <= usize::MAX,
        decreases engine_rows@.len() - r,
    {
        let row = &engine_rows[r].cells;
        let mut i: usize = 0;
        while i < row.len()
            invariant
                i <= row@.len(),
                r < engine_rows@.len(),
                row@ == rows[r as int],
                rows == row_cells(engine_rows@),
                forall|k: int|
                    0 <= k < i ==> (#[trigger] rows[r as int][k]).row < rows.len() && rows[r as int][k].index
                        + rows[r as int][k].value.width() <= usize::MAX,
            decreases row@.len() - i,
        {
            let cell = row[i];
            assert(cell == rows[r as int][i as int]);
            if cell.row >= engine_rows.len() || cell.value.len() > usize::MAX - cell.index {
                return false;
            }
            i += 1;
        }
        r += 1;
    }
    true
}

/// The sum of the part numbers of the schematic that the text shows, if the
/// text shows rows that make up a schematic.
pub fn try_solve(input: &str) -> (sum: Option<u32>)
    ensures
        sum is Some == (is_engine_text(input@) && is_schematic(
            rows_of_text(input@, lines(input@).len() as int),
        )),
        sum is Some ==> sum.unwrap() == parts_sum(
            marks_of(
                rows_of_text(input@, lines(input@).len() as int),
                rows_of_text(input@, lines(input@).len() as int).len() as int,
            ),
            65536,
        ),
{
    let engine_rows = match parse_engine_rows(input) {
        Some(rows) => rows,
        None => {
            return None;
        },
    };
    if !check_schematic(&engine_rows) {
        return None;
    }
    assert(row_cells(engine_rows@).len() == engine_rows@.len());
    Some(solve(&engine_rows))
}

} // verus!
