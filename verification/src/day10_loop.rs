//! The law of the pipe maze: where a single closed loop runs through the start,
//! the farthest point is half the length of the loop away.
use crate::day10::{
    accepted_walkers_leave, cleared, enterable, explore, farthest, farthest_in_row, inside,
    is_start, least, mark, pipes_run_both_ways, probe, traced, walk, Direction, FieldView, Grid,
    PipeDirection, start_is_unique, probe_keeps_other_neighbours, walk_returns, loops_found, one_if,
};
use vstd::prelude::*;

verus! {

/// The position one step from `p` in direction `d`.
pub open spec fn step_from(p: (int, int), d: Direction) -> (int, int) {
    (p.0 + d.row_delta(), p.1 + d.col_delta())
}

/// The cell of the grid at position `p`.
pub open spec fn cell_at(g: Grid, p: (int, int)) -> FieldView {
    g[p.0][p.1]
}

/// Whether nothing is recorded on any cell of the grid.
pub open spec fn is_fresh(g: Grid) -> bool {
    forall|r: int, c: int|
        inside(g, r, c) ==> !(#[trigger] g[r][c]).visited && g[r][c].steps == Seq::<u64>::empty()
}

/// Whether the cell with place `k` on the path is a cell of the grid.
pub open spec fn on_grid(g: Grid, path: Seq<(int, int)>, k: int) -> bool {
    inside(g, path[k].0, path[k].1)
}

/// Whether the direction with index `k` leads from the cell with place `k` to
/// the cell with place `k + 1`.
pub open spec fn links(path: Seq<(int, int)>, dirs: Seq<Direction>, k: int) -> bool {
    path[k + 1] == step_from(path[k], dirs[k])
}

/// Whether the pipe on the cell with place `k` leads a walker who comes from
/// the cell before on to the cell behind.
pub open spec fn leads_on(g: Grid, path: Seq<(int, int)>, dirs: Seq<Direction>, k: int) -> bool {
    cell_at(g, path[k]).pipe.leaves(dirs[k - 1]) == Some(dirs[k])
}

/// Whether the cells with the places `i` and `j` are different cells.
pub open spec fn differ(path: Seq<(int, int)>, i: int, j: int) -> bool {
    path[i] != path[j]
}

/// Whether no cell occurs twice on the path.
pub open spec fn no_repeats(path: Seq<(int, int)>) -> bool {
    forall|i: int, j: int| 0 <= i < j < path.len() ==> #[trigger] differ(path, i, j)
}

/// Whether `path` is a closed loop of pipes through the start of the grid.
///
/// The loop begins at the start cell; `dirs[k]` is the direction that leads
/// from `path[k]` to the next cell, and from the last cell back to the start.
/// Every cell but the start holds a pipe that leads a walker who comes from the
/// cell before on to the cell behind. No cell occurs twice.
pub open spec fn is_loop(g: Grid, path: Seq<(int, int)>, dirs: Seq<Direction>) -> bool {
    let n = path.len() as int;
    &&& n >= 3
    &&& dirs.len() == n
    &&& is_start(g, path[0].0, path[0].1)
    &&& forall|k: int| 0 <= k < n ==> #[trigger] on_grid(g, path, k)
    &&& forall|k: int| 0 <= k < n - 1 ==> #[trigger] links(path, dirs, k)
    &&& path[0] == step_from(path[n - 1], dirs[n - 1])
    &&& forall|k: int| 1 <= k < n ==> #[trigger] leads_on(g, path, dirs, k)
    &&& no_repeats(path)
}

/// Whether the only neighbours of the start that a walker can enter are the
/// two cells of the loop next to it.
pub open spec fn start_opens_into_loop_only(
    g: Grid,
    path: Seq<(int, int)>,
    dirs: Seq<Direction>,
) -> bool {
    forall|d: Direction|
        enterable(g, path[0].0, path[0].1, d) ==> d == dirs[0] || d == dirs[path.len()
            - 1].opposite()
}

/// The place of the position `p` on the path, or -1 if it is not on it.
pub open spec fn place(path: Seq<(int, int)>, p: (int, int)) -> int {
    if exists|k: int| 0 <= k < path.len() && path[k] == p {
        choose|k: int| 0 <= k < path.len() && path[k] == p
    } else {
        -1
    }
}

/// On a path without repeated cells every cell has its own place.
pub proof fn place_on_path(path: Seq<(int, int)>, k: int)
    requires
        0 <= k < path.len(),
        no_repeats(path),
    ensures
        place(path, path[k]) == k,
{
    let p = path[k];
    assert(exists|i: int| 0 <= i < path.len() && path[i] == p) by {
        assert(0 <= k < path.len() && path[k] == p);
    }
    let found = place(path, p);
    assert(0 <= found < path.len() && path[found] == p);
    if found < k {
        assert(differ(path, found, k));
    }
    if k < found {
        assert(differ(path, k, found));
    }
}

/// A position with a place on the path is the cell of the path at that place.
pub proof fn place_is_on_path(path: Seq<(int, int)>, p: (int, int))
    ensures
        -1 <= place(path, p) < path.len(),
        place(path, p) >= 0 ==> path[place(path, p)] == p,
        place(path, p) == -1 ==> forall|k: int| 0 <= k < path.len() ==> path[k] != p,
{
}

/// The greatest of the least step counts of a row is the least step count of
/// one of its cells, and none is greater.
proof fn farthest_in_row_is_greatest(row: Seq<FieldView>, m: u64)
    requires
        forall|c: int| 0 <= c < row.len() ==> least((#[trigger] row[c]).steps) <= m,
    ensures
        farthest_in_row(row) <= m,
        (exists|c: int| 0 <= c < row.len() && least((#[trigger] row[c]).steps) == m)
            ==> farthest_in_row(row) == m,
    decreases row.len(),
{
    if row.len() > 0 {
        let front = row.drop_last();
        assert forall|c: int| 0 <= c < front.len() implies least((#[trigger] front[c]).steps)
            <= m by {
            assert(front[c] == row[c]);
        }
        farthest_in_row_is_greatest(front, m);
        assert(least(row[row.len() - 1].steps) <= m);
        if exists|c: int| 0 <= c < row.len() && least((#[trigger] row[c]).steps) == m {
            let c = choose|c: int| 0 <= c < row.len() && least((#[trigger] row[c]).steps) == m;
            if c < row.len() - 1 {
                assert(front[c] == row[c]);
            }
        }
    }
}

/// The farthest point of a grid is the greatest of the least step counts of
/// its cells.
pub proof fn farthest_is_greatest(g: Grid, m: u64, r: int, c: int)
    requires
        forall|i: int, j: int| inside(g, i, j) ==> least((#[trigger] g[i][j]).steps) <= m,
        inside(g, r, c),
        least(g[r][c].steps) == m,
    ensures
        farthest(g) == m,
    decreases g.len(),
{
    farthest_bound(g, m);
    if r == g.len() - 1 {
        assert forall|j: int| 0 <= j < g.last().len() implies least((#[trigger] g.last()[j]).steps)
            <= m by {
            assert(inside(g, g.len() - 1, j));
        }
        farthest_in_row_is_greatest(g.last(), m);
        assert(least(g.last()[c].steps) == m);
        assert forall|i: int, j: int| inside(g.drop_last(), i, j) implies least(
            (#[trigger] g.drop_last()[i][j]).steps,
        ) <= m by {
            assert(inside(g, i, j));
        }
        farthest_bound(g.drop_last(), m);
    } else {
        let front = g.drop_last();
        assert forall|i: int, j: int| inside(front, i, j) implies least(
            (#[trigger] front[i][j]).steps,
        ) <= m by {
            assert(inside(g, i, j));
        }
        farthest_is_greatest(front, m, r, c);
    }
}

/// No point of a grid is farther than the greatest least step count.
proof fn farthest_bound(g: Grid, m: u64)
    requires
        forall|i: int, j: int| inside(g, i, j) ==> least((#[trigger] g[i][j]).steps) <= m,
    ensures
        farthest(g) <= m,
    decreases g.len(),
{
    if g.len() > 0 {
        let front = g.drop_last();
        assert forall|i: int, j: int| inside(front, i, j) implies least(
            (#[trigger] front[i][j]).steps,
        ) <= m by {
            assert(inside(g, i, j));
        }
        farthest_bound(front, m);
        assert forall|j: int| 0 <= j < g.last().len() implies least((#[trigger] g.last()[j]).steps)
            <= m by {
            assert(inside(g, g.len() - 1, j));
        }
        farthest_in_row_is_greatest(g.last(), m);
    }
}

/// What is recorded during the first walk on the cell with place `at` on a
/// loop of `n` cells, when the walker has come to the cell with place `k`: the
/// two neighbours of the start were visited with step count 1 before the walk,
/// and the walker has visited the cells up to place `k`.
pub open spec fn forward_cell(pipe: PipeDirection, n: int, k: int, at: int) -> FieldView {
    FieldView {
        visited: 1 <= at <= k || at == n - 1,
        steps: if at == n - 1 {
            seq![1u64]
        } else if 1 <= at <= k {
            seq![at as u64]
        } else {
            Seq::empty()
        },
        pipe,
    }
}

/// What is recorded during the second walk, which goes round the other way,
/// when the walker has come to the cell with place `j`.
pub open spec fn backward_cell(pipe: PipeDirection, n: int, j: int, at: int) -> FieldView {
    FieldView {
        visited: j <= at <= n - 2,
        steps: if at == n - 1 {
            seq![1u64]
        } else if 1 <= at <= n - 2 {
            if at >= j {
                seq![at as u64, (n - at) as u64]
            } else {
                seq![at as u64]
            }
        } else {
            Seq::empty()
        },
        pipe,
    }
}

/// The grid during the first walk round the loop.
pub open spec fn forward_grid(g: Grid, path: Seq<(int, int)>, k: int) -> Grid {
    Seq::new(
        g.len(),
        |r: int|
            Seq::new(
                g[r].len(),
                |c: int| forward_cell(g[r][c].pipe, path.len() as int, k, place(path, (r, c))),
            ),
    )
}

/// The grid during the second walk round the loop.
pub open spec fn backward_grid(g: Grid, path: Seq<(int, int)>, j: int) -> Grid {
    Seq::new(
        g.len(),
        |r: int|
            Seq::new(
                g[r].len(),
                |c: int| backward_cell(g[r][c].pipe, path.len() as int, j, place(path, (r, c))),
            ),
    )
}

/// The first walk goes round the loop until it comes to the other neighbour of
/// the start, which was visited before the walk began.
pub proof fn first_walk_goes_round(g: Grid, path: Seq<(int, int)>, dirs: Seq<Direction>, k: int)
    requires
        is_loop(g, path, dirs),
        path.len() <= u64::MAX,
        1 <= k <= path.len() - 2,
    ensures
        walk(forward_grid(g, path, k), path[k].0, path[k].1, dirs[k - 1], k as u64) == cleared(
            forward_grid(g, path, path.len() - 2),
        ),
        !walk_returns(forward_grid(g, path, k), path[k].0, path[k].1, dirs[k - 1], k as u64),
    decreases path.len() - k,
{
    let n = path.len() as int;
    let cur = forward_grid(g, path, k);
    place_on_path(path, k);
    place_on_path(path, k + 1);
    assert(on_grid(g, path, k));
    assert(on_grid(g, path, k + 1));
    assert(leads_on(g, path, dirs, k));
    assert(cur[path[k].0][path[k].1].pipe == cell_at(g, path[k]).pipe);
    assert(links(path, dirs, k));
    assert(inside(cur, path[k + 1].0, path[k + 1].1));
    let there = cur[path[k + 1].0][path[k + 1].1];
    assert(there == forward_cell(cell_at(g, path[k + 1]).pipe, n, k, k + 1));
    if k == n - 2 {
        assert(there.visited);
        place_on_path(path, 0);
        assert(differ(path, 0, n - 1));
        assert(is_start(g, path[0].0, path[0].1));
        assert(there.pipe != PipeDirection::Start) by {
            if there.pipe == PipeDirection::Start {
                accepted_walkers_leave(there.pipe, dirs[n - 2]);
                assert(leads_on(g, path, dirs, n - 1));
            }
        }
    } else {
        assert(leads_on(g, path, dirs, k + 1));
        accepted_walkers_leave(there.pipe, dirs[k]);
        assert(there.can_visit(dirs[k]));
        let after = mark(cur, path[k + 1].0, path[k + 1].1, (k + 1) as u64);
        assert(after =~~= forward_grid(g, path, k + 1)) by {
            assert forall|r: int, c: int| inside(g, r, c) implies after[r][c] == forward_grid(
                g,
                path,
                k + 1,
            )[r][c] by {
                place_is_on_path(path, (r, c));
            }
        }
        first_walk_goes_round(g, path, dirs, k + 1);
    }
}

/// The second walk goes round the loop the other way until it comes back to
/// the start.
pub proof fn second_walk_goes_round(g: Grid, path: Seq<(int, int)>, dirs: Seq<Direction>, j: int)
    requires
        is_loop(g, path, dirs),
        path.len() <= u64::MAX,
        1 <= j <= path.len() - 1,
    ensures
        walk(
            backward_grid(g, path, j),
            path[j].0,
            path[j].1,
            dirs[j].opposite(),
            (path.len() - j) as u64,
        ) == cleared(backward_grid(g, path, 1)),
        walk_returns(
            backward_grid(g, path, j),
            path[j].0,
            path[j].1,
            dirs[j].opposite(),
            (path.len() - j) as u64,
        ),
    decreases j,
{
    let n = path.len() as int;
    let cur = backward_grid(g, path, j);
    place_on_path(path, j);
    place_on_path(path, j - 1);
    assert(on_grid(g, path, j));
    assert(on_grid(g, path, j - 1));
    assert(leads_on(g, path, dirs, j));
    pipes_run_both_ways(cell_at(g, path[j]).pipe, dirs[j - 1]);
    assert(cur[path[j].0][path[j].1].pipe == cell_at(g, path[j]).pipe);
    assert(links(path, dirs, j - 1));
    assert(path[j - 1] == step_from(path[j], dirs[j - 1].opposite()));
    assert(inside(cur, path[j - 1].0, path[j - 1].1));
    let there = cur[path[j - 1].0][path[j - 1].1];
    assert(there == backward_cell(cell_at(g, path[j - 1]).pipe, n, j, j - 1));
    if j == 1 {
        assert(there.pipe == PipeDirection::Start);
    } else {
        assert(leads_on(g, path, dirs, j - 1));
        accepted_walkers_leave(there.pipe, dirs[j - 2]);
        assert(there.can_visit(dirs[j - 1].opposite()));
        let after = mark(cur, path[j - 1].0, path[j - 1].1, (n - j + 1) as u64);
        assert(after =~~= backward_grid(g, path, j - 1)) by {
            assert forall|r: int, c: int| inside(g, r, c) implies after[r][c] == backward_grid(
                g,
                path,
                j - 1,
            )[r][c] by {
                place_is_on_path(path, (r, c));
                if place(path, (r, c)) == j - 1 {
                    assert(after[r][c].steps =~= seq![(j - 1) as u64, (n - j + 1) as u64]);
                }
            }
        }
        second_walk_goes_round(g, path, dirs, j - 1);
    }
}

/// The place of a direction in the order in which the neighbours of the start
/// are tried: east, north, west, south.
pub open spec fn turn_of(d: Direction) -> int {
    match d {
        Direction::East => 0,
        Direction::North => 1,
        Direction::West => 2,
        Direction::South => 3,
    }
}

/// Where the start has two neighbours that can be entered, in the directions
/// `a` and `b`, and `a` is tried first, the walks are the walk from the
/// neighbour in direction `a` and then the walk from the neighbour in direction
/// `b`, on the grid on which both neighbours were visited with step count 1.
pub proof fn two_neighbours_give_two_walks(g: Grid, r: int, c: int, a: Direction, b: Direction)
    requires
        is_start(g, r, c),
        enterable(g, r, c, a),
        enterable(g, r, c, b),
        turn_of(a) < turn_of(b),
        forall|d: Direction| enterable(g, r, c, d) ==> d == a || d == b,
    ensures
        traced(g) == walk(
            walk(
                mark(
                    mark(g, r + a.row_delta(), c + a.col_delta(), 1),
                    r + b.row_delta(),
                    c + b.col_delta(),
                    1,
                ),
                r + a.row_delta(),
                c + a.col_delta(),
                a,
                1,
            ),
            r + b.row_delta(),
            c + b.col_delta(),
            b,
            1,
        ),
        loops_found(g) == one_if(walk_returns(
            mark(
                mark(g, r + a.row_delta(), c + a.col_delta(), 1),
                r + b.row_delta(),
                c + b.col_delta(),
                1,
            ),
            r + a.row_delta(),
            c + a.col_delta(),
            a,
            1,
        )) + one_if(walk_returns(
            walk(
                mark(
                    mark(g, r + a.row_delta(), c + a.col_delta(), 1),
                    r + b.row_delta(),
                    c + b.col_delta(),
                    1,
                ),
                r + a.row_delta(),
                c + a.col_delta(),
                a,
                1,
            ),
            r + b.row_delta(),
            c + b.col_delta(),
            b,
            1,
        )),
{
    start_is_unique(g, r, c);
    let g1 = probe(g, r, c, Direction::East);
    probe_keeps_other_neighbours(g, r, c, Direction::East, Direction::North);
    probe_keeps_other_neighbours(g, r, c, Direction::East, Direction::West);
    probe_keeps_other_neighbours(g, r, c, Direction::East, Direction::South);
    let g2 = probe(g1, r, c, Direction::North);
    assert(inside(g1, r, c));
    probe_keeps_other_neighbours(g1, r, c, Direction::North, Direction::West);
    probe_keeps_other_neighbours(g1, r, c, Direction::North, Direction::South);
    let g3 = probe(g2, r, c, Direction::West);
    assert(inside(g2, r, c));
    probe_keeps_other_neighbours(g2, r, c, Direction::West, Direction::South);
    let g4 = probe(g3, r, c, Direction::South);
    let both = mark(
        mark(g, r + a.row_delta(), c + a.col_delta(), 1),
        r + b.row_delta(),
        c + b.col_delta(),
        1,
    );
    assert(g4 == both);
    let w1 = explore(g4, g, r, c, Direction::East);
    let w2 = explore(w1, g, r, c, Direction::North);
    let w3 = explore(w2, g, r, c, Direction::West);
    let w4 = explore(w3, g, r, c, Direction::South);
    assert(traced(g) == w4);
}

/// The least of two step counts.
proof fn least_of_two(a: u64, b: u64)
    ensures
        least(seq![a, b]) == if b < a {
            b
        } else {
            a
        },
        least(seq![a]) == a,
        least(Seq::<u64>::empty()) == 0,
{
    reveal_with_fuel(least, 3);
    assert(seq![a, b].drop_last() =~= seq![a]);
    assert(seq![a].len() == 1);
    assert(seq![a, b].len() == 2);
    assert(seq![a, b].last() == b);
    assert(seq![a][0] == a);
}

/// After both walks round a loop of `n` cells the farthest point is `n / 2`
/// steps away.
pub proof fn farthest_point_after_both_walks(g: Grid, path: Seq<(int, int)>, dirs: Seq<Direction>)
    requires
        is_loop(g, path, dirs),
        path.len() <= u64::MAX,
    ensures
        farthest(cleared(backward_grid(g, path, 1))) == path.len() / 2,
{
    let n = path.len() as int;
    let end = cleared(backward_grid(g, path, 1));
    let m = (n / 2) as u64;
    assert forall|i: int, j: int| inside(end, i, j) implies least((#[trigger] end[i][j]).steps)
        <= m by {
        let at = place(path, (i, j));
        place_is_on_path(path, (i, j));
        assert(end[i][j].steps == backward_cell(g[i][j].pipe, n, 1, at).steps);
        if 1 <= at <= n - 2 {
            least_of_two(at as u64, (n - at) as u64);
        } else {
            least_of_two(1, 1);
        }
    }
    let half = path[n / 2];
    assert(on_grid(g, path, n / 2));
    place_on_path(path, n / 2);
    assert(end[half.0][half.1].steps == backward_cell(g[half.0][half.1].pipe, n, 1, n / 2).steps);
    least_of_two((n / 2) as u64, (n - n / 2) as u64);
    farthest_is_greatest(end, m, half.0, half.1);
}

/// Where the walk that follows the loop forward is made first, the farthest
/// point is half the length of the loop away.
proof fn forward_first(g: Grid, path: Seq<(int, int)>, dirs: Seq<Direction>)
    requires
        is_fresh(g),
        is_loop(g, path, dirs),
        start_opens_into_loop_only(g, path, dirs),
        path.len() <= u64::MAX,
        turn_of(dirs[0]) < turn_of(dirs[path.len() - 1].opposite()),
    ensures
        farthest(traced(g)) == path.len() / 2,
        loops_found(g) == 1,
{
    let n = path.len() as int;
    let a = dirs[0];
    let b = dirs[n - 1].opposite();
    let r = path[0].0;
    let c = path[0].1;
    loop_neighbours_can_be_entered(g, path, dirs);
    two_neighbours_give_two_walks(g, r, c, a, b);
    assert(links(path, dirs, 0));
    assert(on_grid(g, path, 1));
    assert(on_grid(g, path, n - 1));
    place_on_path(path, 1);
    place_on_path(path, n - 1);
    let both = mark(mark(g, path[1].0, path[1].1, 1), path[n - 1].0, path[n - 1].1, 1);
    assert(both =~~= forward_grid(g, path, 1)) by {
        assert forall|i: int, j: int| inside(g, i, j) implies both[i][j] == forward_grid(
            g,
            path,
            1,
        )[i][j] by {
            place_is_on_path(path, (i, j));
        }
    }
    first_walk_goes_round(g, path, dirs, 1);
    assert(cleared(forward_grid(g, path, n - 2)) =~~= backward_grid(g, path, n - 1));
    second_walk_goes_round(g, path, dirs, n - 1);
    farthest_point_after_both_walks(g, path, dirs);
}

/// The two cells of the loop next to the start can be entered from the start,
/// and they lie in different directions.
pub proof fn loop_neighbours_can_be_entered(g: Grid, path: Seq<(int, int)>, dirs: Seq<Direction>)
    requires
        is_fresh(g),
        is_loop(g, path, dirs),
    ensures
        enterable(g, path[0].0, path[0].1, dirs[0]),
        enterable(g, path[0].0, path[0].1, dirs[path.len() - 1].opposite()),
        dirs[0] != dirs[path.len() - 1].opposite(),
        step_from(path[0], dirs[0]) == path[1],
        step_from(path[0], dirs[path.len() - 1].opposite()) == path[path.len() - 1],
{
    let n = path.len() as int;
    assert(links(path, dirs, 0));
    assert(on_grid(g, path, 1));
    assert(on_grid(g, path, n - 1));
    assert(leads_on(g, path, dirs, 1));
    assert(leads_on(g, path, dirs, n - 1));
    accepted_walkers_leave(cell_at(g, path[1]).pipe, dirs[0]);
    accepted_walkers_leave(cell_at(g, path[n - 1]).pipe, dirs[n - 2]);
    assert(differ(path, 1, n - 1));
}

/// The cells of the loop in the order in which a walker meets them who goes
/// round the other way.
pub open spec fn reversed_path(path: Seq<(int, int)>) -> Seq<(int, int)> {
    Seq::new(
        path.len(),
        |k: int|
            if k == 0 {
                path[0]
            } else {
                path[path.len() - k]
            },
    )
}

/// The directions that lead round the loop the other way.
pub open spec fn reversed_dirs(dirs: Seq<Direction>) -> Seq<Direction> {
    Seq::new(dirs.len(), |k: int| dirs[dirs.len() - 1 - k].opposite())
}

/// A loop can be walked both ways: taken the other way round it is a loop too.
pub proof fn loop_runs_both_ways(g: Grid, path: Seq<(int, int)>, dirs: Seq<Direction>)
    requires
        is_loop(g, path, dirs),
        start_opens_into_loop_only(g, path, dirs),
    ensures
        is_loop(g, reversed_path(path), reversed_dirs(dirs)),
        start_opens_into_loop_only(g, reversed_path(path), reversed_dirs(dirs)),
{
    let n = path.len() as int;
    let rp = reversed_path(path);
    let rd = reversed_dirs(dirs);
    assert forall|k: int| 0 <= k < n implies #[trigger] on_grid(g, rp, k) by {
        if k == 0 {
            assert(on_grid(g, path, 0));
        } else {
            assert(on_grid(g, path, n - k));
        }
    }
    assert forall|k: int| 0 <= k < n - 1 implies #[trigger] links(rp, rd, k) by {
        if k > 0 {
            assert(links(path, dirs, n - k - 1));
        }
    }
    assert(links(path, dirs, 0));
    assert(rp[0] == step_from(rp[n - 1], rd[n - 1]));
    assert forall|k: int| 1 <= k < n implies #[trigger] leads_on(g, rp, rd, k) by {
        assert(leads_on(g, path, dirs, n - k));
        pipes_run_both_ways(cell_at(g, path[n - k]).pipe, dirs[n - k - 1]);
    }
    assert forall|i: int, j: int| 0 <= i < j < n implies #[trigger] differ(rp, i, j) by {
        if i == 0 {
            assert(differ(path, 0, n - j));
        } else {
            assert(differ(path, n - j, n - i));
        }
    }
    assert(rd[n - 1].opposite() == dirs[0]);
}

/// The farthest point of a loop is half its length away.
///
/// Let a single closed loop of pipes run through the start of a maze on which
/// no walk has been recorded yet, and let the start have no neighbour that can
/// be entered but the two cells of the loop next to it. Then tracing the maze
/// finds one loop, and the farthest point that it gives is half the number of
/// cells of the loop.
pub proof fn farthest_point_is_half_the_loop(g: Grid, path: Seq<(int, int)>, dirs: Seq<Direction>)
    requires
        is_fresh(g),
        is_loop(g, path, dirs),
        start_opens_into_loop_only(g, path, dirs),
        path.len() <= u64::MAX,
    ensures
        loops_found(g) == 1,
        farthest(traced(g)) == path.len() / 2,
{
    let n = path.len() as int;
    loop_neighbours_can_be_entered(g, path, dirs);
    if turn_of(dirs[0]) < turn_of(dirs[n - 1].opposite()) {
        forward_first(g, path, dirs);
    } else {
        loop_runs_both_ways(g, path, dirs);
        assert(reversed_dirs(dirs)[0] == dirs[n - 1].opposite());
        assert(reversed_dirs(dirs)[n - 1].opposite() == dirs[0]);
        forward_first(g, reversed_path(path), reversed_dirs(dirs));
    }
}

} // verus!
