//! A lumber collection area: each acre is open ground, trees or a
//! lumberyard, and changes every minute according to its eight neighbours.

use vstd::prelude::*;

verus! {

/// What an acre holds.
#[derive(Clone, Copy, Debug, PartialEq, Eq, Hash, Structural)]
pub enum State {
    Open,
    Wood,
    Yard,
}

pub open spec fn rows_of(grid: Seq<Vec<State>>) -> Seq<Seq<State>> {
    Seq::new(grid.len(), |y: int| grid[y]@)
}

/// The `k`-th of the eight neighbour offsets `(dy, dx)`, row by row.
pub open spec fn offset(k: int) -> (int, int) {
    if k == 0 {
        (-1, -1)
    } else if k == 1 {
        (-1, 0)
    } else if k == 2 {
        (-1, 1)
    } else if k == 3 {
        (0, -1)
    } else if k == 4 {
        (0, 1)
    } else if k == 5 {
        (1, -1)
    } else if k == 6 {
        (1, 0)
    } else {
        (1, 1)
    }
}

/// The acre in row `y`, column `x` exists and is in state `st`.
pub open spec fn is_state(grid: Seq<Seq<State>>, y: int, x: int, st: State) -> bool {
    0 <= y < grid.len() && 0 <= x < grid[y].len() && grid[y][x] == st
}

/// How many of the first `k` neighbours of `(py, px)` are in state `st`.
pub open spec fn count_first(grid: Seq<Seq<State>>, py: int, px: int, st: State, k: int) -> nat
    decreases k,
{
    if k <= 0 {
        0
    } else {
        count_first(grid, py, px, st, k - 1) + if is_state(
            grid,
            py + offset(k - 1).0,
            px + offset(k - 1).1,
            st,
        ) {
            1nat
        } else {
            0nat
        }
    }
}

/// How many of the eight neighbours of `(py, px)` are in state `st`.
pub open spec fn nb_count(grid: Seq<Seq<State>>, py: int, px: int, st: State) -> nat {
    count_first(grid, py, px, st, 8)
}

/// Number of neighbours of the acre at `(row, column)` that are in state `st`.
pub fn neighbor_count(grid: &[Vec<State>], pos: (usize, usize), st: State) -> (n: usize)
    ensures
        n == nb_count(rows_of(grid@), pos.0 as int, pos.1 as int, st),
{
    let (py, px) = pos;
    let ghost g = rows_of(grid@);
    let mut n: usize = 0;
    let mut k: usize = 0;
    while k < 8
        invariant
            k <= 8,
            g == rows_of(grid@),
            n == count_first(g, py as int, px as int, st, k as int),
            n <= k,
        decreases 8 - k,
    {
        let (dy, dx): (i8, i8) = if k == 0 {
            (-1, -1)
        } else if k == 1 {
            (-1, 0)
        } else if k == 2 {
            (-1, 1)
        } else if k == 3 {
            (0, -1)
        } else if k == 4 {
            (0, 1)
        } else if k == 5 {
            (1, -1)
        } else if k == 6 {
            (1, 0)
        } else {
            (1, 1)
        };
        assert((dy as int, dx as int) == offset(k as int));
        let glen = grid.len();
        let yo: Option<usize> = if dy < 0 { py.checked_sub(1) } else if dy > 0 { py.checked_add(1) } else { Some(py) };
        let xo: Option<usize> = if dx < 0 { px.checked_sub(1) } else if dx > 0 { px.checked_add(1) } else { Some(px) };
        let hit = match yo {
            Some(y) => {
                if y < glen {
                    assert(g[y as int] == grid[y as int]@);
                    let rlen = grid[y].len();
                    match xo {
                        Some(x) => x < rlen && grid[y][x] == st,
                        None => false,
                    }
                } else {
                    false
                }
            },
            None => false,
        };
        assert(hit == is_state(g, py + dy, px + dx, st));
        if hit {
            n = n + 1;
        }
        k = k + 1;
    }
    n
}

/// What an acre becomes after a minute: open ground grows trees next to at
/// least three acres of trees; trees become a lumberyard next to at least
/// three lumberyards; a lumberyard stays one only next to another lumberyard
/// and to trees, and otherwise becomes open ground.
pub open spec fn next_state(grid: Seq<Seq<State>>, y: int, x: int) -> State {
    match grid[y][x] {
        State::Open => if nb_count(grid, y, x, State::Wood) >= 3 { State::Wood } else { State::Open },
        State::Wood => if nb_count(grid, y, x, State::Yard) >= 3 { State::Yard } else { State::Wood },
        State::Yard => if nb_count(grid, y, x, State::Yard) >= 1 && nb_count(grid, y, x, State::Wood) >= 1 {
            State::Yard
        } else {
            State::Open
        },
    }
}

/// The area one minute later.
pub fn evolve(grid: &[Vec<State>]) -> (r: Vec<Vec<State>>)
    ensures
        r.len() == grid.len(),
        forall|y: int| 0 <= y < grid.len() ==> (#[trigger] r[y]).len() == grid[y].len(),
        forall|y: int, x: int|
            0 <= y < grid.len() && 0 <= x < grid[y].len() ==> #[trigger] r[y][x] == next_state(rows_of(grid@), y, x),
{
    let ghost g = rows_of(grid@);
    let mut out: Vec<Vec<State>> = Vec::new();
    for y in 0..grid.len()
        invariant
            g == rows_of(grid@),
            out.len() == y,
            forall|k: int| 0 <= k < y ==> (#[trigger] out[k]).len() == grid[k].len(),
            forall|k: int, x: int|
                0 <= k < y && 0 <= x < grid[k].len() ==> #[trigger] out[k][x] == next_state(g, k, x),
    {
        let line = &grid[y];
        let mut row: Vec<State> = Vec::new();
        for x in 0..line.len()
            invariant
                g == rows_of(grid@),
                line == grid[y as int],
                y < grid.len(),
                row.len() == x,
                forall|i: int| 0 <= i < x ==> #[trigger] row[i] == next_state(g, y as int, i),
        {
            assert(g[y as int] == grid[y as int]@);
            let cell = match line[x] {
                State::Open => if neighbor_count(grid, (y, x), State::Wood) >= 3 {
                    State::Wood
                } else {
                    State::Open
                },
                State::Wood => if neighbor_count(grid, (y, x), State::Yard) >= 3 {
                    State::Yard
                } else {
                    State::Wood
                },
                State::Yard => if neighbor_count(grid, (y, x), State::Yard) >= 1 && neighbor_count(
                    grid,
                    (y, x),
                    State::Wood,
                ) >= 1 {
                    State::Yard
                } else {
                    State::Open
                },
            };
            row.push(cell);
        }
        out.push(row);
        assert forall|k: int, x: int|
            0 <= k < y + 1 && 0 <= x < grid[k].len() implies #[trigger] out[k][x] == next_state(g, k, x) by {
            if k == y {
                assert(out[k] == row);
            }
        }
    }
    out
}

/// How many acres of the first `n` of a row are in state `st`.
pub open spec fn row_count(row: Seq<State>, st: State, n: int) -> int
    decreases n,
{
    if n <= 0 {
        0
    } else {
        row_count(row, st, n - 1) + if row[n - 1] == st { 1int } else { 0int }
    }
}

/// How many acres of the first `n` rows are in state `st`.
pub open spec fn area_count(grid: Seq<Seq<State>>, st: State, n: int) -> int
    decreases n,
{
    if n <= 0 {
        0
    } else {
        area_count(grid, st, n - 1) + row_count(grid[n - 1], st, grid[n - 1].len() as int)
    }
}

proof fn lemma_row_count_bounds(row: Seq<State>, st: State, a: int, b: int)
    requires
        0 <= a <= b <= row.len(),
    ensures
        0 <= row_count(row, st, a) <= row_count(row, st, b),
    decreases b,
{
    if a < b {
        lemma_row_count_bounds(row, st, a, b - 1);
    } else if a > 0 {
        lemma_row_count_bounds(row, st, a - 1, b - 1);
    }
}

proof fn lemma_area_count_bounds(grid: Seq<Seq<State>>, st: State, a: int, b: int)
    requires
        0 <= a <= b <= grid.len(),
    ensures
        0 <= area_count(grid, st, a) <= area_count(grid, st, b),
    decreases b,
{
    if a < b {
        lemma_area_count_bounds(grid, st, a, b - 1);
        lemma_row_count_bounds(grid[b - 1], st, 0, grid[b - 1].len() as int);
    } else if a > 0 {
        lemma_area_count_bounds(grid, st, a - 1, b - 1);
        lemma_row_count_bounds(grid[a - 1], st, 0, grid[a - 1].len() as int);
    }
}

/// Acres in state `st` in the whole area.
fn count_state(grid: &[Vec<State>], st: State) -> (n: usize)
    requires
        area_count(rows_of(grid@), st, grid.len() as int) <= usize::MAX,
    ensures
        n == area_count(rows_of(grid@), st, grid.len() as int),
{
    let ghost g = rows_of(grid@);
    let mut n: usize = 0;
    for y in 0..grid.len()
        invariant
            g == rows_of(grid@),
            n == area_count(g, st, y as int),
            area_count(g, st, grid.len() as int) <= usize::MAX,
    {
        let line = &grid[y];
        assert(g[y as int] == line@);
        proof {
            lemma_area_count_bounds(g, st, y + 1, grid.len() as int);
        }
        for x in 0..line.len()
            invariant
                g == rows_of(grid@),
                y < grid.len(),
                g[y as int] == line@,
                n == area_count(g, st, y as int) + row_count(line@, st, x as int),
                area_count(g, st, y + 1) <= usize::MAX,
        {
            proof {
                lemma_row_count_bounds(line@, st, x + 1, line.len() as int);
                lemma_area_count_bounds(g, st, y as int, y as int);
            }
            if line[x] == st {
                n = n + 1;
            }
        }
    }
    n
}

/// The resource value: acres of trees times lumberyards; defined where the
/// product fits in a `usize`.
pub fn evaluate(grid: &[Vec<State>]) -> (r: usize)
    requires
        area_count(rows_of(grid@), State::Wood, grid.len() as int) <= usize::MAX,
        area_count(rows_of(grid@), State::Yard, grid.len() as int) <= usize::MAX,
        area_count(rows_of(grid@), State::Wood, grid.len() as int) * area_count(
            rows_of(grid@),
            State::Yard,
            grid.len() as int,
        ) <= usize::MAX,
    ensures
        r == area_count(rows_of(grid@), State::Wood, grid.len() as int) * area_count(
            rows_of(grid@),
            State::Yard,
            grid.len() as int,
        ),
{
    let woods = count_state(grid, State::Wood);
    let yards = count_state(grid, State::Yard);
    woods * yards
}

} // verus!
