//! Target search: a breadth-first search, one distance layer at a time, from
//! a unit over free floor to the nearest squares in range of an enemy.

use vstd::prelude::*;
use crate::world::{Board, Faction, Square, World};

verus! {

/// Position `(x1, y1)` comes before `(x2, y2)` in reading order: by row
/// first, then by column.
pub open spec fn reading_lt(x1: int, y1: int, x2: int, y2: int) -> bool {
    y1 < y2 || (y1 == y2 && x1 < x2)
}

/// Reading order is a strict total order on positions: of two distinct
/// positions exactly one comes first.
pub proof fn lemma_reading_order_total(x1: int, y1: int, x2: int, y2: int)
    ensures
        (x1, y1) != (x2, y2) ==> (reading_lt(x1, y1, x2, y2) != reading_lt(x2, y2, x1, y1)),
        !reading_lt(x1, y1, x1, y1),
{
}

/// Reading order is transitive.
pub proof fn lemma_reading_order_transitive(x1: int, y1: int, x2: int, y2: int, x3: int, y3: int)
    requires
        reading_lt(x1, y1, x2, y2),
        reading_lt(x2, y2, x3, y3),
    ensures
        reading_lt(x1, y1, x3, y3),
{
}

/// The two positions are next to each other, across a side.
pub open spec fn adjacent(x1: int, y1: int, x2: int, y2: int) -> bool {
    (x1 == x2 && (y1 == y2 + 1 || y2 == y1 + 1)) || (y1 == y2 && (x1 == x2 + 1 || x2 == x1 + 1))
}

/// A live enemy of faction `f` stands in column `x` of row `y`.
pub open spec fn enemy_at(w: Board, x: int, y: int, f: Faction) -> bool {
    &&& w.in_bounds(x, y)
    &&& w.at(x, y) is Unit
    &&& w.roster()[w.at(x, y)->Unit_0 as int].faction != f
}

/// A unit of faction `f` standing in column `x` of row `y` could attack.
pub open spec fn in_range(w: Board, x: int, y: int, f: Faction) -> bool {
    enemy_at(w, x, y - 1, f) || enemy_at(w, x - 1, y, f) || enemy_at(w, x + 1, y, f) || enemy_at(
        w,
        x,
        y + 1,
        f,
    )
}

/// The `k`-th neighbour in the order north, west, east, south.
pub open spec fn neighbor_pos(x: int, y: int, k: int) -> (int, int) {
    if k == 0 {
        (x, y - 1)
    } else if k == 1 {
        (x - 1, y)
    } else if k == 2 {
        (x + 1, y)
    } else {
        (x, y + 1)
    }
}

/// What a target search found for a unit.
#[derive(Clone, Copy, Debug, PartialEq, Eq)]
pub enum Search {
    /// No live enemy is left anywhere.
    NoEnemies,
    /// Enemies are left, but no square in range of one can be reached.
    Unreachable,
    /// The chosen square in range of an enemy, `dist` steps away, in column
    /// `tx` of row `ty`, and the square of the first step towards it
    /// (`sx`, `sy`); both are the unit's own square when `dist` is zero.
    Found { dist: usize, tx: usize, ty: usize, sx: usize, sy: usize },
}

/// The number of unvisited squares in a row.
pub open spec fn row_unseen(r: Seq<bool>) -> nat
    decreases r.len(),
{
    if r.len() == 0 {
        0
    } else {
        row_unseen(r.drop_last()) + if r.last() {
            0nat
        } else {
            1nat
        }
    }
}

pub open spec fn bits(seen: Seq<Vec<bool>>) -> Seq<Seq<bool>> {
    Seq::new(seen.len(), |y: int| seen[y]@)
}

/// The number of unvisited squares in a map of visit marks.
pub open spec fn unseen(g: Seq<Seq<bool>>) -> nat
    decreases g.len(),
{
    if g.len() == 0 {
        0
    } else {
        unseen(g.drop_last()) + row_unseen(g.last())
    }
}

proof fn lemma_row_mark(r: Seq<bool>, x: int)
    requires
        0 <= x < r.len(),
        !r[x],
    ensures
        row_unseen(r.update(x, true)) + 1 == row_unseen(r),
    decreases r.len(),
{
    let s = r.update(x, true);
    if x == r.len() - 1 {
        assert(s.drop_last() == r.drop_last());
    } else {
        assert(s.drop_last() == r.drop_last().update(x, true));
        lemma_row_mark(r.drop_last(), x);
    }
}

proof fn lemma_mark(g: Seq<Seq<bool>>, y: int, x: int)
    requires
        0 <= y < g.len(),
        0 <= x < g[y].len(),
        !g[y][x],
    ensures
        unseen(g.update(y, g[y].update(x, true))) + 1 == unseen(g),
    decreases g.len(),
{
    let s = g.update(y, g[y].update(x, true));
    if y == g.len() - 1 {
        assert(s.drop_last() == g.drop_last());
        lemma_row_mark(g[y], x);
    } else {
        assert(s.drop_last() == g.drop_last().update(y, g[y].update(x, true)));
        lemma_mark(g.drop_last(), y, x);
    }
}

impl World {
    /// Whether a live enemy of faction `f` stands in column `x` of row `y`.
    pub(crate) fn enemy_on(&self, x: usize, y: usize, f: Faction) -> (r: bool)
        requires
            self.wf(),
            self.board().in_bounds(x as int, y as int),
        ensures
            r == enemy_at(self.board(), x as int, y as int, f),
    {
        match self.square_at(x, y) {
            Square::Unit(id) => self.unit(id).faction != f,
            _ => false,
        }
    }

    /// The `k`-th neighbour of a square (north, west, east, south), if it
    /// lies on the map.
    pub(crate) fn neighbor(&self, x: usize, y: usize, k: usize) -> (r: Option<(usize, usize)>)
        requires
            self.wf(),
            self.board().in_bounds(x as int, y as int),
            k < 4,
        ensures
            r is Some <==> self.board().in_bounds(neighbor_pos(x as int, y as int, k as int).0, neighbor_pos(x as int, y as int, k as int).1),
            r is Some ==> r->Some_0.0 == neighbor_pos(x as int, y as int, k as int).0 && r->Some_0.1
                == neighbor_pos(x as int, y as int, k as int).1,
    {
        if k == 0 {
            if y > 0 { Some((x, y - 1)) } else { None }
        } else if k == 1 {
            if x > 0 { Some((x - 1, y)) } else { None }
        } else if k == 2 {
            if x < self.width() - 1 { Some((x + 1, y)) } else { None }
        } else {
            if y < self.height() - 1 { Some((x, y + 1)) } else { None }
        }
    }

    /// Whether a unit of faction `f` standing in column `x` of row `y`
    /// would have an enemy next to it.
    pub fn enemy_adjacent(&self, x: usize, y: usize, f: Faction) -> (r: bool)
        requires
            self.wf(),
            self.board().in_bounds(x as int, y as int),
        ensures
            r == in_range(self.board(), x as int, y as int, f),
    {
        let mut k: usize = 0;
        while k < 4
            invariant
                self.wf(),
                self.board().in_bounds(x as int, y as int),
                k <= 4,
                forall|j: int| 0 <= j < k ==> !enemy_at(self.board(), #[trigger] neighbor_pos(x as int, y as int, j).0, neighbor_pos(x as int, y as int, j).1, f),
            decreases 4 - k,
        {
            match self.neighbor(x, y, k) {
                Some((nx, ny)) => {
                    if self.enemy_on(nx, ny, f) {
                        return true;
                    }
                },
                None => {},
            }
            k = k + 1;
        }
        assert(!enemy_at(self.board(), neighbor_pos(x as int, y as int, 0).0, neighbor_pos(x as int, y as int, 0).1, f));
        assert(!enemy_at(self.board(), neighbor_pos(x as int, y as int, 1).0, neighbor_pos(x as int, y as int, 1).1, f));
        assert(!enemy_at(self.board(), neighbor_pos(x as int, y as int, 2).0, neighbor_pos(x as int, y as int, 2).1, f));
        assert(!enemy_at(self.board(), neighbor_pos(x as int, y as int, 3).0, neighbor_pos(x as int, y as int, 3).1, f));
        false
    }
}

proof fn lemma_row_unseen_bound(r: Seq<bool>)
    ensures
        row_unseen(r) <= r.len(),
    decreases r.len(),
{
    if r.len() > 0 {
        lemma_row_unseen_bound(r.drop_last());
    }
}

proof fn lemma_unseen_bound(g: Seq<Seq<bool>>, w: int)
    requires
        forall|y: int| 0 <= y < g.len() ==> (#[trigger] g[y]).len() == w,
    ensures
        unseen(g) <= g.len() * w,
    decreases g.len(),
{
    if g.len() > 0 {
        lemma_unseen_bound(g.drop_last(), w);
        lemma_row_unseen_bound(g.last());
        assert(g.len() * w == (g.len() - 1) * w + w) by (nonlinear_arith);
    }
}

/// A visit in the search: the square reached, and the square of the first
/// step taken from the origin to reach it.
pub open spec fn visit_ok(w: Board, ox: int, oy: int, v: (usize, usize, usize, usize), dist: int) -> bool {
    let (x, y, sx, sy) = v;
    &&& w.in_bounds(x as int, y as int)
    &&& dist == 0 ==> x == ox && y == oy && sx == ox && sy == oy
    &&& dist > 0 ==> {
        &&& w.at(x as int, y as int) == Square::Open
        &&& w.in_bounds(sx as int, sy as int)
        &&& w.at(sx as int, sy as int) == Square::Open
        &&& adjacent(ox, oy, sx as int, sy as int)
        &&& dist == 1 ==> x == sx && y == sy
    }
}

/// Open floor with no unit on it.
pub open spec fn free(w: Board, x: int, y: int) -> bool {
    w.in_bounds(x, y) && w.at(x, y) == Square::Open
}

/// Square `(x, y)` can be reached from `(ox, oy)` in at most `k` steps,
/// each onto a neighbouring free square.
pub open spec fn reach(w: Board, ox: int, oy: int, x: int, y: int, k: nat) -> bool
    decreases k,
{
    if k == 0 {
        x == ox && y == oy
    } else {
        reach(w, ox, oy, x, y, (k - 1) as nat) || (free(w, x, y) && (reach(
            w,
            ox,
            oy,
            x,
            y - 1,
            (k - 1) as nat,
        ) || reach(w, ox, oy, x - 1, y, (k - 1) as nat) || reach(w, ox, oy, x + 1, y, (k - 1) as nat)
            || reach(w, ox, oy, x, y + 1, (k - 1) as nat)))
    }
}

/// Square `(x, y)` is exactly `k` steps away from `(ox, oy)`.
pub open spec fn in_layer(w: Board, ox: int, oy: int, x: int, y: int, k: nat) -> bool {
    reach(w, ox, oy, x, y, k) && (k == 0 || !reach(w, ox, oy, x, y, (k - 1) as nat))
}

/// `(tx, ty)` is the square that a unit of faction `f` at `(ox, oy)` heads
/// for: in range of an enemy, `d` steps away, no square in range nearer,
/// and first in reading order among those in range `d` steps away.
pub open spec fn nearest_target(w: Board, f: Faction, ox: int, oy: int, d: nat, tx: int, ty: int) -> bool {
    &&& in_range(w, tx, ty, f)
    &&& reach(w, ox, oy, tx, ty, d)
    &&& forall|x: int, y: int|
        d > 0 && #[trigger] reach(w, ox, oy, x, y, (d - 1) as nat) ==> !in_range(w, x, y, f)
    &&& forall|x: int, y: int|
        #[trigger] reach(w, ox, oy, x, y, d) && in_range(w, x, y, f) ==> !reading_lt(x, y, tx, ty)
}

/// No square in range of an enemy of faction `f` can be reached from `(ox, oy)`.
pub open spec fn no_target(w: Board, f: Faction, ox: int, oy: int) -> bool {
    forall|k: nat, x: int, y: int| #[trigger] reach(w, ox, oy, x, y, k) ==> !in_range(w, x, y, f)
}

proof fn lemma_reach_in_bounds(w: Board, ox: int, oy: int, x: int, y: int, k: nat)
    requires
        w.in_bounds(ox, oy),
        reach(w, ox, oy, x, y, k),
    ensures
        w.in_bounds(x, y),
    decreases k,
{
    if k > 0 && reach(w, ox, oy, x, y, (k - 1) as nat) {
        lemma_reach_in_bounds(w, ox, oy, x, y, (k - 1) as nat);
    }
}

proof fn lemma_reach_mono(w: Board, ox: int, oy: int, x: int, y: int, k1: nat, k2: nat)
    requires
        k1 <= k2,
        reach(w, ox, oy, x, y, k1),
    ensures
        reach(w, ox, oy, x, y, k2),
    decreases k2,
{
    if k1 < k2 {
        lemma_reach_mono(w, ox, oy, x, y, k1, (k2 - 1) as nat);
    }
}

proof fn lemma_reach_stable(w: Board, ox: int, oy: int, d: nat, k: nat)
    requires
        d <= k,
        forall|x: int, y: int| #[trigger] reach(w, ox, oy, x, y, d + 1) ==> reach(w, ox, oy, x, y, d),
    ensures
        forall|x: int, y: int| #[trigger] reach(w, ox, oy, x, y, k) ==> reach(w, ox, oy, x, y, d),
    decreases k - d,
{
    if d < k {
        lemma_reach_stable(w, ox, oy, d, (k - 1) as nat);
        assert forall|x: int, y: int| #[trigger] reach(w, ox, oy, x, y, k) implies reach(w, ox, oy, x, y, d) by {
            if !reach(w, ox, oy, x, y, (k - 1) as nat) {
                assert(free(w, x, y));
                if reach(w, ox, oy, x, y - 1, (k - 1) as nat) {
                    assert(reach(w, ox, oy, x, y - 1, d));
                } else if reach(w, ox, oy, x - 1, y, (k - 1) as nat) {
                    assert(reach(w, ox, oy, x - 1, y, d));
                } else if reach(w, ox, oy, x + 1, y, (k - 1) as nat) {
                    assert(reach(w, ox, oy, x + 1, y, d));
                } else {
                    assert(reach(w, ox, oy, x, y + 1, (k - 1) as nat));
                    assert(reach(w, ox, oy, x, y + 1, d));
                }
                assert(reach(w, ox, oy, x, y, d + 1));
            }
        }
    }
}

/// The square `(x, y)` is a neighbour, in direction `dir`, of one of the
/// first visits of `fr`: all of those before index `i`, and the first `k`
/// directions of the visit at index `i`.
pub open spec fn touched(fr: Seq<(usize, usize, usize, usize)>, i: int, k: int, x: int, y: int) -> bool {
    exists|j: int, dir: int|
        0 <= j < fr.len() && 0 <= dir < 4 && (j < i || (j == i && dir < k)) && #[trigger] neighbor_pos(
            fr[j].0 as int,
            fr[j].1 as int,
            dir,
        ) == (x, y)
}

/// Some visit of `fr` is at `(x, y)`.
pub open spec fn listed(fr: Seq<(usize, usize, usize, usize)>, x: int, y: int) -> bool {
    exists|j: int| 0 <= j < fr.len() && fr[j].0 == x && fr[j].1 == y
}

pub open spec fn marked(seen: Seq<Vec<bool>>, x: int, y: int) -> bool {
    seen[y]@[x]
}

proof fn lemma_touched_step(fr: Seq<(usize, usize, usize, usize)>, i: int, k: int, x: int, y: int)
    requires
        0 <= i < fr.len(),
        0 <= k < 4,
    ensures
        touched(fr, i, k + 1, x, y) == (touched(fr, i, k, x, y) || neighbor_pos(
            fr[i].0 as int,
            fr[i].1 as int,
            k,
        ) == (x, y)),
{
    if touched(fr, i, k + 1, x, y) {
        let (j, dir) = choose|j: int, dir: int|
            0 <= j < fr.len() && 0 <= dir < 4 && (j < i || (j == i && dir < k + 1)) && #[trigger] neighbor_pos(
                fr[j].0 as int,
                fr[j].1 as int,
                dir,
            ) == (x, y);
        if !(j == i && dir == k) {
            assert(touched(fr, i, k, x, y));
        }
    }
    if neighbor_pos(fr[i].0 as int, fr[i].1 as int, k) == (x, y) {
        assert(touched(fr, i, k + 1, x, y));
    }
    if touched(fr, i, k, x, y) {
        let (j, dir) = choose|j: int, dir: int|
            0 <= j < fr.len() && 0 <= dir < 4 && (j < i || (j == i && dir < k)) && #[trigger] neighbor_pos(
                fr[j].0 as int,
                fr[j].1 as int,
                dir,
            ) == (x, y);
        assert(touched(fr, i, k + 1, x, y));
    }
}

proof fn lemma_touched_row(fr: Seq<(usize, usize, usize, usize)>, i: int, x: int, y: int)
    requires
        0 <= i < fr.len(),
    ensures
        touched(fr, i, 4, x, y) == touched(fr, i + 1, 0, x, y),
{
    if touched(fr, i, 4, x, y) {
        let (j, dir) = choose|j: int, dir: int|
            0 <= j < fr.len() && 0 <= dir < 4 && (j < i || (j == i && dir < 4)) && #[trigger] neighbor_pos(
                fr[j].0 as int,
                fr[j].1 as int,
                dir,
            ) == (x, y);
        assert(touched(fr, i + 1, 0, x, y));
    }
    if touched(fr, i + 1, 0, x, y) {
        let (j, dir) = choose|j: int, dir: int|
            0 <= j < fr.len() && 0 <= dir < 4 && (j < i + 1 || (j == i + 1 && dir < 0)) && #[trigger] neighbor_pos(
                fr[j].0 as int,
                fr[j].1 as int,
                dir,
            ) == (x, y);
        assert(touched(fr, i, 4, x, y));
    }
}

/// A square next to one reached within `d` steps, and free, is reached
/// within `d + 1`.
proof fn lemma_reach_step(w: Board, ox: int, oy: int, qx: int, qy: int, dir: int, d: nat)
    requires
        0 <= dir < 4,
        reach(w, ox, oy, qx, qy, d),
        free(w, neighbor_pos(qx, qy, dir).0, neighbor_pos(qx, qy, dir).1),
    ensures
        reach(w, ox, oy, neighbor_pos(qx, qy, dir).0, neighbor_pos(qx, qy, dir).1, d + 1),
{
    let (x, y) = neighbor_pos(qx, qy, dir);
    assert(reach(w, ox, oy, x, y, d + 1));
}

/// The neighbour of `(ox, oy)` in direction `k` is free, and `(x, y)` can be
/// reached from it in at most `j` steps.
pub open spec fn reach_via(w: Board, ox: int, oy: int, k: int, x: int, y: int, j: nat) -> bool {
    free(w, neighbor_pos(ox, oy, k).0, neighbor_pos(ox, oy, k).1) && reach(
        w,
        neighbor_pos(ox, oy, k).0,
        neighbor_pos(ox, oy, k).1,
        x,
        y,
        j,
    )
}

/// For a square `d >= 1` steps from `(ox, oy)`: `k` is the first direction
/// (north, west, east, south) whose neighbour starts a shortest path to it.
pub open spec fn first_dir(w: Board, ox: int, oy: int, x: int, y: int, d: nat, k: int) -> bool {
    &&& 0 <= k < 4
    &&& reach_via(w, ox, oy, k, x, y, (d - 1) as nat)
    &&& forall|j: int| 0 <= j < k ==> !#[trigger] reach_via(w, ox, oy, j, x, y, (d - 1) as nat)
}

/// The direction in which `(sx, sy)` lies from `(ox, oy)`.
pub open spec fn dir_rank(ox: int, oy: int, sx: int, sy: int) -> int {
    if (sx, sy) == neighbor_pos(ox, oy, 0) {
        0
    } else if (sx, sy) == neighbor_pos(ox, oy, 1) {
        1
    } else if (sx, sy) == neighbor_pos(ox, oy, 2) {
        2
    } else {
        3
    }
}

/// The visit's first step is the first direction towards it, `d >= 1`
/// steps away.
pub open spec fn step_first(w: Board, ox: int, oy: int, v: (usize, usize, usize, usize), d: nat) -> bool {
    let r = dir_rank(ox, oy, v.2 as int, v.3 as int);
    &&& first_dir(w, ox, oy, v.0 as int, v.1 as int, d, r)
    &&& (v.2 as int, v.3 as int) == neighbor_pos(ox, oy, r)
}

/// A square reached in `j` steps from a free neighbour is reached in
/// `j + 1` from the origin.
proof fn lemma_reach_shift(w: Board, ox: int, oy: int, k: int, x: int, y: int, j: nat)
    requires
        0 <= k < 4,
        reach_via(w, ox, oy, k, x, y, j),
    ensures
        reach(w, ox, oy, x, y, j + 1),
    decreases j,
{
    let (nx, ny) = neighbor_pos(ox, oy, k);
    if j == 0 {
        assert(reach(w, ox, oy, ox, oy, 0));
        assert(reach(w, ox, oy, x, y, 1));
    } else if reach(w, nx, ny, x, y, (j - 1) as nat) {
        lemma_reach_shift(w, ox, oy, k, x, y, (j - 1) as nat);
        lemma_reach_mono(w, ox, oy, x, y, j, j + 1);
    } else {
        if reach(w, nx, ny, x, y - 1, (j - 1) as nat) {
            lemma_reach_shift(w, ox, oy, k, x, y - 1, (j - 1) as nat);
        } else if reach(w, nx, ny, x - 1, y, (j - 1) as nat) {
            lemma_reach_shift(w, ox, oy, k, x - 1, y, (j - 1) as nat);
        } else if reach(w, nx, ny, x + 1, y, (j - 1) as nat) {
            lemma_reach_shift(w, ox, oy, k, x + 1, y, (j - 1) as nat);
        } else {
            lemma_reach_shift(w, ox, oy, k, x, y + 1, (j - 1) as nat);
        }
    }
}

/// A square first found from visit `i` of a layer sorted by first
/// direction keeps that visit's first direction.
proof fn lemma_first_dir_extends(
    w: Board,
    ox: int,
    oy: int,
    fr: Seq<(usize, usize, usize, usize)>,
    i: int,
    k: int,
    dir: int,
    d: nat,
)
    requires
        d > 0,
        0 <= i < fr.len(),
        0 <= k <= 4,
        0 <= dir < 4,
        w.in_bounds(ox, oy),
        forall|j: int|
            0 <= j < fr.len() ==> in_layer(w, ox, oy, (#[trigger] fr[j]).0 as int, fr[j].1 as int, d)
                && step_first(w, ox, oy, fr[j], d),
        forall|a: int, b: int|
            0 <= a < b < fr.len() ==> dir_rank(ox, oy, (#[trigger] fr[a]).2 as int, fr[a].3 as int) <= dir_rank(
                ox,
                oy,
                (#[trigger] fr[b]).2 as int,
                fr[b].3 as int,
            ),
        forall|x: int, y: int| #[trigger] in_layer(w, ox, oy, x, y, d) ==> listed(fr, x, y),
        free(w, neighbor_pos(fr[i].0 as int, fr[i].1 as int, dir).0, neighbor_pos(fr[i].0 as int, fr[i].1 as int, dir).1),
        !reach(w, ox, oy, neighbor_pos(fr[i].0 as int, fr[i].1 as int, dir).0, neighbor_pos(fr[i].0 as int, fr[i].1 as int, dir).1, d),
        !touched(fr, i, k, neighbor_pos(fr[i].0 as int, fr[i].1 as int, dir).0, neighbor_pos(fr[i].0 as int, fr[i].1 as int, dir).1),
    ensures
        first_dir(
            w,
            ox,
            oy,
            neighbor_pos(fr[i].0 as int, fr[i].1 as int, dir).0,
            neighbor_pos(fr[i].0 as int, fr[i].1 as int, dir).1,
            d + 1,
            dir_rank(ox, oy, fr[i].2 as int, fr[i].3 as int),
        ),
{
    let (qx, qy) = (fr[i].0 as int, fr[i].1 as int);
    let (cx, cy) = neighbor_pos(qx, qy, dir);
    let r = dir_rank(ox, oy, fr[i].2 as int, fr[i].3 as int);
    assert(step_first(w, ox, oy, fr[i], d));
    let (nx, ny) = neighbor_pos(ox, oy, r);
    lemma_reach_step(w, nx, ny, qx, qy, dir, (d - 1) as nat);
    assert(reach_via(w, ox, oy, r, cx, cy, d));
    assert forall|j: int| 0 <= j < r implies !#[trigger] reach_via(w, ox, oy, j, cx, cy, d) by {
        if reach_via(w, ox, oy, j, cx, cy, d) {
            let (mx, my) = neighbor_pos(ox, oy, j);
            if reach(w, mx, my, cx, cy, (d - 1) as nat) {
                lemma_reach_shift(w, ox, oy, j, cx, cy, (d - 1) as nat);
            } else {
                let (px, py, back) = if reach(w, mx, my, cx, cy - 1, (d - 1) as nat) {
                    (cx, cy - 1, 3int)
                } else if reach(w, mx, my, cx - 1, cy, (d - 1) as nat) {
                    (cx - 1, cy, 2int)
                } else if reach(w, mx, my, cx + 1, cy, (d - 1) as nat) {
                    (cx + 1, cy, 1int)
                } else {
                    (cx, cy + 1, 0int)
                };
                assert(reach(w, mx, my, px, py, (d - 1) as nat));
                assert(neighbor_pos(px, py, back) == (cx, cy));
                assert(reach_via(w, ox, oy, j, px, py, (d - 1) as nat));
                lemma_reach_shift(w, ox, oy, j, px, py, (d - 1) as nat);
                lemma_reach_in_bounds(w, mx, my, px, py, (d - 1) as nat);
                if reach(w, ox, oy, px, py, (d - 1) as nat) {
                    assert(reach(w, ox, oy, cx, cy, d));
                }
                assert(in_layer(w, ox, oy, px, py, d));
                assert(listed(fr, px, py));
                let i2 = choose|i2: int| 0 <= i2 < fr.len() && fr[i2].0 == px && fr[i2].1 == py;
                assert(step_first(w, ox, oy, fr[i2], d));
                let r2 = dir_rank(ox, oy, fr[i2].2 as int, fr[i2].3 as int);
                assert(r2 <= j);
                if i2 >= i {
                    if i2 > i {
                        assert(dir_rank(ox, oy, fr[i].2 as int, fr[i].3 as int) <= dir_rank(ox, oy, fr[i2].2 as int, fr[i2].3 as int));
                    }
                }
                assert(i2 < i);
                assert(neighbor_pos(fr[i2].0 as int, fr[i2].1 as int, back) == (cx, cy));
                assert(touched(fr, i, k, cx, cy));
            }
        }
    }
}

/// The target search has one answer: any two squares that meet the
/// contract of `find_targets` for the same unit, with their distances and
/// first steps, are the same.
pub proof fn lemma_search_unique(
    w: Board,
    f: Faction,
    ox: int,
    oy: int,
    d1: nat,
    t1: (int, int),
    s1: (int, int),
    d2: nat,
    t2: (int, int),
    s2: (int, int),
)
    requires
        nearest_target(w, f, ox, oy, d1, t1.0, t1.1),
        nearest_target(w, f, ox, oy, d2, t2.0, t2.1),
        d1 > 0 ==> first_dir(w, ox, oy, t1.0, t1.1, d1, dir_rank(ox, oy, s1.0, s1.1)) && s1 == neighbor_pos(
            ox,
            oy,
            dir_rank(ox, oy, s1.0, s1.1),
        ),
        d2 > 0 ==> first_dir(w, ox, oy, t2.0, t2.1, d2, dir_rank(ox, oy, s2.0, s2.1)) && s2 == neighbor_pos(
            ox,
            oy,
            dir_rank(ox, oy, s2.0, s2.1),
        ),
    ensures
        d1 == d2,
        t1 == t2,
        d1 > 0 ==> s1 == s2,
{
    if d1 < d2 {
        lemma_reach_mono(w, ox, oy, t1.0, t1.1, d1, (d2 - 1) as nat);
    }
    if d2 < d1 {
        lemma_reach_mono(w, ox, oy, t2.0, t2.1, d2, (d1 - 1) as nat);
    }
    assert(d1 == d2);
    assert(!reading_lt(t1.0, t1.1, t2.0, t2.1));
    assert(!reading_lt(t2.0, t2.1, t1.0, t1.1));
    if d1 > 0 {
        let k1 = dir_rank(ox, oy, s1.0, s1.1);
        let k2 = dir_rank(ox, oy, s2.0, s2.1);
        if k1 < k2 {
            assert(!reach_via(w, ox, oy, k1, t2.0, t2.1, (d2 - 1) as nat));
        }
        if k2 < k1 {
            assert(!reach_via(w, ox, oy, k2, t1.0, t1.1, (d1 - 1) as nat));
        }
    }
}

/// `r` is a found target that meets the contract of the search for unit
/// `id` on board `b`.
pub open spec fn found_ok(b: Board, id: int, r: Search) -> bool {
    let u = b.roster()[id];
    match r {
        Search::Found { dist, tx, ty, sx, sy } => {
            &&& nearest_target(b, u.faction, u.x as int, u.y as int, dist as nat, tx as int, ty as int)
            &&& visit_ok(b, u.x as int, u.y as int, (tx, ty, sx, sy), dist as int)
            &&& dist > 0 ==> step_first(b, u.x as int, u.y as int, (tx, ty, sx, sy), dist as nat)
        },
        _ => false,
    }
}

/// The result of the target search for unit `id` on board `b`.
pub open spec fn search_spec(b: Board, id: int) -> Search {
    if !b.has_enemy_of(b.roster()[id].faction) {
        Search::NoEnemies
    } else if exists|r: Search| found_ok(b, id, r) {
        choose|r: Search| found_ok(b, id, r)
    } else {
        Search::Unreachable
    }
}

proof fn lemma_found_unique(b: Board, id: int, r1: Search, r2: Search)
    requires
        found_ok(b, id, r1),
        found_ok(b, id, r2),
    ensures
        r1 == r2,
{
    let u = b.roster()[id];
    if let (Search::Found { dist: d1, tx: x1, ty: y1, sx: a1, sy: c1 }, Search::Found { dist: d2, tx: x2, ty: y2, sx: a2, sy: c2 }) = (r1, r2) {
        lemma_search_unique(
            b,
            u.faction,
            u.x as int,
            u.y as int,
            d1 as nat,
            (x1 as int, y1 as int),
            (a1 as int, c1 as int),
            d2 as nat,
            (x2 as int, y2 as int),
            (a2 as int, c2 as int),
        );
    }
}

impl World {
    /// The layered breadth-first search behind `find_targets`.
    fn search_layers(&self, id: usize) -> (r: Search)
        requires
            self.wf(),
            self.board().alive(id as int),
        ensures
            (r is NoEnemies) <==> !self.board().has_enemy_of(self.roster()[id as int].faction),
            r matches Search::Found { dist, tx, ty, sx, sy } ==> {
                let u = self.roster()[id as int];
                &&& nearest_target(self.board(), u.faction, u.x as int, u.y as int, dist as nat, tx as int, ty as int)
                &&& visit_ok(self.board(), u.x as int, u.y as int, (tx, ty, sx, sy), dist as int)
                &&& dist > 0 ==> step_first(self.board(), u.x as int, u.y as int, (tx, ty, sx, sy), dist as nat)
            },
            r is Unreachable ==> no_target(
                self.board(),
                self.roster()[id as int].faction,
                self.roster()[id as int].x as int,
                self.roster()[id as int].y as int,
            ),
            self.board().has_enemy_of(self.roster()[id as int].faction) ==> (in_range(
                self.board(),
                self.roster()[id as int].x as int,
                self.roster()[id as int].y as int,
                self.roster()[id as int].faction,
            ) <==> r matches Search::Found { dist: 0, .. }),
    {
        let me = self.unit(id);
        let f = me.faction;
        let ox = me.x;
        let oy = me.y;
        if !self.enemies_exist(f) {
            return Search::NoEnemies;
        }
        assert(self.roster()[id as int].hp > 0);
        assert(self.board().in_bounds(ox as int, oy as int));
        if self.enemy_adjacent(ox, oy, f) {
            assert(reach(self.board(), ox as int, oy as int, ox as int, oy as int, 0));
            return Search::Found { dist: 0, tx: ox, ty: oy, sx: ox, sy: oy };
        }
        let width = self.width();
        let height = self.height();
        let mut seen: Vec<Vec<bool>> = Vec::new();
        for y in 0..height
            invariant
                seen.len() == y,
                forall|k: int| 0 <= k < y ==> (#[trigger] seen[k]).len() == width,
                forall|k: int, i: int| 0 <= k < y && 0 <= i < width ==> !(#[trigger] seen[k]@[i]),
        {
            let mut row: Vec<bool> = Vec::new();
            for x in 0..width
                invariant
                    row.len() == x,
                    forall|i: int| 0 <= i < x ==> !(#[trigger] row@[i]),
            {
                row.push(false);
            }
            seen.push(row);
        }
        proof {
            assert forall|y: int| 0 <= y < bits(seen@).len() implies (#[trigger] bits(seen@)[y]).len() == width by {
                assert(seen[y].len() == width);
            }
            lemma_unseen_bound(bits(seen@), width as int);
        }
        assert(!seen[oy as int]@[ox as int]);
        let ghost before = bits(seen@);
        let ghost blank = seen@;
        assert(!before[oy as int][ox as int]);
        seen[oy][ox] = true;
        proof {
            lemma_mark(before, oy as int, ox as int);
            assert(bits(seen@) =~= before.update(oy as int, before[oy as int].update(ox as int, true)));
            assert(width * height == height * width) by (nonlinear_arith);
        }
        let ghost w = self.board();
        let ghost gx = ox as int;
        let ghost gy = oy as int;
        let mut frontier: Vec<(usize, usize, usize, usize)> = vec![(ox, oy, ox, oy)];
        let mut dist: usize = 0;
        proof {
            assert forall|x: int, y: int| #[trigger] w.in_bounds(x, y) implies (marked(seen@, x, y) <==> reach(
                w,
                gx,
                gy,
                x,
                y,
                0,
            )) by {
                assert(bits(seen@)[y][x] == seen@[y]@[x]);
                if !(x == gx && y == gy) {
                    assert(bits(seen@)[y][x] == before[y][x]);
                    assert(before[y][x] == blank[y]@[x]);
                    assert(!blank[y]@[x]);
                }
            }
            assert forall|x: int, y: int| #[trigger] in_layer(w, gx, gy, x, y, 0) implies listed(frontier@, x, y) by {
                assert(frontier@[0].0 == x && frontier@[0].1 == y);
            }
        }
        loop
            invariant
                self.wf(),
                w == self.board(),
                self.board().alive(id as int),
                me == self.roster()[id as int],
                f == me.faction,
                ox == me.x,
                oy == me.y,
                gx == ox,
                gy == oy,
                self.board().in_bounds(gx, gy),
                self.board().has_enemy_of(f),
                !in_range(self.board(), ox as int, oy as int, f),
                width == self.w(),
                height == self.h(),
                seen.len() == height,
                forall|k: int| 0 <= k < height ==> (#[trigger] seen[k]).len() == width,
                dist + unseen(bits(seen@)) < width * height,
                forall|i: int|
                    0 <= i < frontier.len() ==> visit_ok(self.board(), ox as int, oy as int, #[trigger] frontier[i], dist as int)
                        && in_layer(w, gx, gy, frontier[i].0 as int, frontier[i].1 as int, dist as nat),
                forall|x: int, y: int|
                    #[trigger] w.in_bounds(x, y) ==> (marked(seen@, x, y) <==> reach(w, gx, gy, x, y, dist as nat)),
                forall|x: int, y: int| #[trigger] in_layer(w, gx, gy, x, y, dist as nat) ==> listed(frontier@, x, y),
                forall|x: int, y: int| #[trigger] reach(w, gx, gy, x, y, dist as nat) ==> !in_range(w, x, y, f),
                dist == 0 ==> frontier.len() == 1,
                forall|i: int| 0 <= i < frontier.len() && dist > 0 ==> step_first(w, gx, gy, #[trigger] frontier[i], dist as nat),
                forall|a: int, b: int|
                    0 <= a < b < frontier.len() ==> dir_rank(gx, gy, (#[trigger] frontier[a]).2 as int, frontier[a].3 as int)
                        <= dir_rank(gx, gy, (#[trigger] frontier[b]).2 as int, frontier[b].3 as int),
            decreases unseen(bits(seen@)),
        {
            let ghost layer_start = unseen(bits(seen@));
            let ghost d = dist as nat;
            let ghost fr = frontier@;
            let mut next: Vec<(usize, usize, usize, usize)> = Vec::new();
            for i in 0..frontier.len()
                invariant
                    self.wf(),
                    w == self.board(),
                    fr == frontier@,
                    d == dist,
                    ox == me.x,
                    oy == me.y,
                    gx == ox,
                    gy == oy,
                    self.board().in_bounds(gx, gy),
                    me == self.roster()[id as int],
                    self.board().alive(id as int),
                    width == self.w(),
                    height == self.h(),
                    seen.len() == height,
                    forall|k: int| 0 <= k < height ==> (#[trigger] seen[k]).len() == width,
                    unseen(bits(seen@)) + next.len() == layer_start,
                    forall|j: int|
                        0 <= j < frontier.len() ==> visit_ok(self.board(), ox as int, oy as int, #[trigger] frontier[j], dist as int)
                            && in_layer(w, gx, gy, frontier[j].0 as int, frontier[j].1 as int, d),
                    forall|j: int|
                        0 <= j < next.len() ==> visit_ok(self.board(), ox as int, oy as int, #[trigger] next[j], dist + 1)
                            && in_layer(w, gx, gy, next[j].0 as int, next[j].1 as int, d + 1),
                    forall|x: int, y: int|
                        #[trigger] w.in_bounds(x, y) ==> (marked(seen@, x, y) <==> (reach(w, gx, gy, x, y, d) || (
                        free(w, x, y) && touched(fr, i as int, 0, x, y)))),
                    forall|x: int, y: int|
                        #[trigger] w.in_bounds(x, y) && marked(seen@, x, y) && !reach(w, gx, gy, x, y, d)
                            ==> listed(next@, x, y),
                    forall|x: int, y: int| #[trigger] in_layer(w, gx, gy, x, y, d) ==> listed(fr, x, y),
                    d == 0 ==> fr.len() == 1,
                    i == 0 ==> next.len() == 0,
                    forall|j: int| 0 <= j < fr.len() && d > 0 ==> step_first(w, gx, gy, #[trigger] fr[j], d),
                    forall|a: int, b: int|
                        0 <= a < b < fr.len() ==> dir_rank(gx, gy, (#[trigger] fr[a]).2 as int, fr[a].3 as int)
                            <= dir_rank(gx, gy, (#[trigger] fr[b]).2 as int, fr[b].3 as int),
                    forall|j: int| 0 <= j < next.len() ==> step_first(w, gx, gy, #[trigger] next[j], d + 1),
                    forall|a: int, b: int|
                        0 <= a < b < next.len() ==> dir_rank(gx, gy, (#[trigger] next[a]).2 as int, next[a].3 as int)
                            <= dir_rank(gx, gy, (#[trigger] next[b]).2 as int, next[b].3 as int),
                    d > 0 ==> forall|a: int, j: int|
                        0 <= a < next.len() && i <= j < fr.len() ==> dir_rank(gx, gy, (#[trigger] next[a]).2 as int, next[a].3 as int)
                            <= dir_rank(gx, gy, (#[trigger] fr[j]).2 as int, fr[j].3 as int),
            {
                let (x, y, sx, sy) = frontier[i];
                let mut k: usize = 0;
                while k < 4
                    invariant
                        self.wf(),
                        w == self.board(),
                        fr == frontier@,
                        d == dist,
                        0 <= i < fr.len(),
                        (x, y, sx, sy) == fr[i as int],
                        ox == me.x,
                        oy == me.y,
                        gx == ox,
                        gy == oy,
                        self.board().in_bounds(gx, gy),
                        me == self.roster()[id as int],
                        self.board().alive(id as int),
                        width == self.w(),
                        height == self.h(),
                        seen.len() == height,
                        forall|k: int| 0 <= k < height ==> (#[trigger] seen[k]).len() == width,
                        unseen(bits(seen@)) + next.len() == layer_start,
                        visit_ok(self.board(), ox as int, oy as int, (x, y, sx, sy), dist as int),
                        in_layer(w, gx, gy, x as int, y as int, d),
                        forall|j: int|
                            0 <= j < next.len() ==> visit_ok(self.board(), ox as int, oy as int, #[trigger] next[j], dist + 1)
                                && in_layer(w, gx, gy, next[j].0 as int, next[j].1 as int, d + 1),
                        forall|x: int, y: int|
                            #[trigger] w.in_bounds(x, y) ==> (marked(seen@, x, y) <==> (reach(w, gx, gy, x, y, d) || (
                            free(w, x, y) && touched(fr, i as int, k as int, x, y)))),
                        forall|x: int, y: int|
                            #[trigger] w.in_bounds(x, y) && marked(seen@, x, y) && !reach(w, gx, gy, x, y, d)
                                ==> listed(next@, x, y),
                        k <= 4,
                        forall|x: int, y: int| #[trigger] in_layer(w, gx, gy, x, y, d) ==> listed(fr, x, y),
                        d == 0 ==> fr.len() == 1 && i == 0,
                        forall|j: int|
                            0 <= j < fr.len() ==> in_layer(w, gx, gy, (#[trigger] fr[j]).0 as int, fr[j].1 as int, d),
                        forall|j: int| 0 <= j < fr.len() && d > 0 ==> step_first(w, gx, gy, #[trigger] fr[j], d),
                        forall|a: int, b: int|
                            0 <= a < b < fr.len() ==> dir_rank(gx, gy, (#[trigger] fr[a]).2 as int, fr[a].3 as int)
                                <= dir_rank(gx, gy, (#[trigger] fr[b]).2 as int, fr[b].3 as int),
                        forall|j: int| 0 <= j < next.len() ==> step_first(w, gx, gy, #[trigger] next[j], d + 1),
                        forall|a: int, b: int|
                            0 <= a < b < next.len() ==> dir_rank(gx, gy, (#[trigger] next[a]).2 as int, next[a].3 as int)
                                <= dir_rank(gx, gy, (#[trigger] next[b]).2 as int, next[b].3 as int),
                        d > 0 ==> forall|a: int, j: int|
                            0 <= a < next.len() && i <= j < fr.len() ==> dir_rank(gx, gy, (#[trigger] next[a]).2 as int, next[a].3 as int)
                                <= dir_rank(gx, gy, (#[trigger] fr[j]).2 as int, fr[j].3 as int),
                        d == 0 ==> forall|a: int| 0 <= a < next.len() ==> dir_rank(gx, gy, (#[trigger] next[a]).2 as int, next[a].3 as int) < k,
                    decreases 4 - k,
                {
                    let ghost old_seen = seen@;
                    let ghost old_next = next@;
                    proof {
                        assert forall|a: int, b: int| #[trigger] touched(fr, i as int, k + 1, a, b) == (touched(fr, i as int, k as int, a, b) || neighbor_pos(x as int, y as int, k as int) == (a, b)) by {
                            lemma_touched_step(fr, i as int, k as int, a, b);
                        }
                    }
                    match self.neighbor(x, y, k) {
                        Some((nx, ny)) => {
                            if !seen[ny][nx] && self.square_at(nx, ny) == Square::Open {
                                let ghost prev = bits(seen@);
                                seen[ny][nx] = true;
                                proof {
                                    lemma_mark(prev, ny as int, nx as int);
                                    assert(bits(seen@) =~= prev.update(ny as int, prev[ny as int].update(nx as int, true)));
                                    assert(!reach(w, gx, gy, nx as int, ny as int, d));
                                    lemma_reach_step(w, gx, gy, x as int, y as int, k as int, d);
                                }
                                proof {
                                    if d > 0 {
                                        assert(!touched(fr, i as int, k as int, nx as int, ny as int));
                                        assert forall|j: int| 0 <= j < fr.len() implies in_layer(w, gx, gy, (#[trigger] fr[j]).0 as int, fr[j].1 as int, d)
                                            && step_first(w, gx, gy, fr[j], d) by {}
                                        lemma_first_dir_extends(w, gx, gy, fr, i as int, k as int, k as int, d);
                                    } else {
                                        assert(fr[0] == (ox, oy, ox, oy)) by {
                                            assert(visit_ok(w, gx, gy, fr[0], 0));
                                        }
                                        assert(dir_rank(gx, gy, nx as int, ny as int) == k);
                                        assert(reach(w, nx as int, ny as int, nx as int, ny as int, 0));
                                        assert(first_dir(w, gx, gy, nx as int, ny as int, 1, k as int));
                                    }
                                }
                                if dist == 0 {
                                    next.push((nx, ny, nx, ny));
                                } else {
                                    next.push((nx, ny, sx, sy));
                                }
                                proof {
                                    assert(next@[next.len() - 1].0 == nx && next@[next.len() - 1].1 == ny);
                                    assert forall|a: int, b: int|
                                        #[trigger] w.in_bounds(a, b) && marked(seen@, a, b) && !reach(w, gx, gy, a, b, d)
                                            implies listed(next@, a, b) by {
                                        if !(a == nx && b == ny) {
                                            assert(seen@[b]@[a] == old_seen[b]@[a]);
                                            assert(listed(old_next, a, b));
                                            let j = choose|j: int| 0 <= j < old_next.len() && old_next[j].0 == a && old_next[j].1 == b;
                                            assert(next@[j] == old_next[j]);
                                        }
                                    }
                                    assert forall|a: int, b: int| #[trigger] w.in_bounds(a, b) implies (marked(seen@, a, b) <==> (reach(w, gx, gy, a, b, d) || (
                                        free(w, a, b) && touched(fr, i as int, k + 1, a, b)))) by {
                                        if !(a == nx && b == ny) {
                                            assert(seen@[b]@[a] == old_seen[b]@[a]);
                                        }
                                    }
                                }
                            } else {
                                proof {
                                    assert forall|a: int, b: int| #[trigger] w.in_bounds(a, b) implies (marked(seen@, a, b) <==> (reach(w, gx, gy, a, b, d) || (
                                        free(w, a, b) && touched(fr, i as int, k + 1, a, b)))) by {
                                        if a == nx && b == ny && free(w, a, b) {
                                            assert(marked(old_seen, a, b));
                                        }
                                    }
                                }
                            }
                        },
                        None => {},
                    }
                    k = k + 1;
                }
                proof {
                    assert forall|a: int, b: int| #[trigger] touched(fr, i as int, 4, a, b) == touched(fr, i + 1, 0, a, b) by {
                        lemma_touched_row(fr, i as int, a, b);
                    }
                }
            }
            proof {
                // Everything marked now is exactly what lies within one more step.
                assert forall|a: int, b: int| #[trigger] w.in_bounds(a, b) implies (marked(seen@, a, b) <==> reach(w, gx, gy, a, b, d + 1)) by {
                    if touched(fr, fr.len() as int, 0, a, b) && free(w, a, b) {
                        let (j, dir) = choose|j: int, dir: int|
                            0 <= j < fr.len() && 0 <= dir < 4 && (j < fr.len() || (j == fr.len() && dir < 0)) && #[trigger] neighbor_pos(
                                fr[j].0 as int,
                                fr[j].1 as int,
                                dir,
                            ) == (a, b);
                        lemma_reach_step(w, gx, gy, fr[j].0 as int, fr[j].1 as int, dir, d);
                    }
                    if reach(w, gx, gy, a, b, d + 1) && !reach(w, gx, gy, a, b, d) {
                        assert(free(w, a, b));
                        let (qx, qy, dir) = if reach(w, gx, gy, a, b - 1, d) {
                            (a, b - 1, 3int)
                        } else if reach(w, gx, gy, a - 1, b, d) {
                            (a - 1, b, 2int)
                        } else if reach(w, gx, gy, a + 1, b, d) {
                            (a + 1, b, 1int)
                        } else {
                            (a, b + 1, 0int)
                        };
                        assert(reach(w, gx, gy, qx, qy, d));
                        assert(neighbor_pos(qx, qy, dir) == (a, b));
                        if d > 0 && reach(w, gx, gy, qx, qy, (d - 1) as nat) {
                            assert(reach(w, gx, gy, a, b, d));
                        }
                        assert(in_layer(w, gx, gy, qx, qy, d));
                        lemma_reach_in_bounds(w, gx, gy, qx, qy, d);
                        assert(listed(fr, qx, qy));
                        let j = choose|j: int| 0 <= j < fr.len() && fr[j].0 == qx && fr[j].1 == qy;
                        assert(neighbor_pos(fr[j].0 as int, fr[j].1 as int, dir) == (a, b));
                        assert(touched(fr, fr.len() as int, 0, a, b));
                    }
                    if reach(w, gx, gy, a, b, d) {
                        lemma_reach_mono(w, gx, gy, a, b, d, d + 1);
                    }
                }
            }
            if next.len() == 0 {
                proof {
                    assert forall|a: int, b: int| #[trigger] reach(w, gx, gy, a, b, d + 1) implies reach(w, gx, gy, a, b, d) by {
                        lemma_reach_in_bounds(w, gx, gy, a, b, d + 1);
                        if !reach(w, gx, gy, a, b, d) {
                            assert(marked(seen@, a, b));
                            assert(listed(next@, a, b));
                        }
                    }
                    assert forall|kk: nat, a: int, b: int| #[trigger] reach(w, gx, gy, a, b, kk) implies !in_range(w, a, b, f) by {
                        if kk <= d {
                            lemma_reach_mono(w, gx, gy, a, b, kk, d);
                        } else {
                            lemma_reach_stable(w, gx, gy, d, kk);
                        }
                    }
                }
                return Search::Unreachable;
            }
            dist = dist + 1;
            frontier = next;
            proof {
                assert forall|a: int, b: int| #[trigger] in_layer(w, gx, gy, a, b, dist as nat) implies listed(frontier@, a, b) by {
                    lemma_reach_in_bounds(w, gx, gy, a, b, dist as nat);
                    assert(marked(seen@, a, b));
                }
            }
            let mut best: Option<usize> = None;
            for i in 0..frontier.len()
                invariant
                    self.wf(),
                    w == self.board(),
                    forall|j: int|
                        0 <= j < frontier.len() ==> visit_ok(self.board(), ox as int, oy as int, #[trigger] frontier[j], dist as int)
                            && in_layer(w, gx, gy, frontier[j].0 as int, frontier[j].1 as int, dist as nat),
                    best is None ==> forall|j: int|
                        0 <= j < i ==> !in_range(w, (#[trigger] frontier[j]).0 as int, frontier[j].1 as int, f),
                    best matches Some(b) ==> {
                        &&& b < i
                        &&& in_range(w, frontier[b as int].0 as int, frontier[b as int].1 as int, f)
                        &&& forall|j: int|
                            0 <= j < i && in_range(w, (#[trigger] frontier[j]).0 as int, frontier[j].1 as int, f)
                                ==> !reading_lt(
                                frontier[j].0 as int,
                                frontier[j].1 as int,
                                frontier[b as int].0 as int,
                                frontier[b as int].1 as int,
                            )
                    },
            {
                let (x, y, _, _) = frontier[i];
                if self.enemy_adjacent(x, y, f) {
                    match best {
                        None => best = Some(i),
                        Some(b) => {
                            let (bx, by, _, _) = frontier[b];
                            if y < by || (y == by && x < bx) {
                                best = Some(i);
                            }
                        },
                    }
                }
            }
            if let Some(b) = best {
                let (tx, ty, sx, sy) = frontier[b];
                proof {
                    assert forall|a: int, c: int|
                        #[trigger] reach(w, gx, gy, a, c, dist as nat) && in_range(w, a, c, f) implies !reading_lt(a, c, tx as int, ty as int) by {
                        if !reach(w, gx, gy, a, c, d) {
                            assert(in_layer(w, gx, gy, a, c, dist as nat));
                            let j = choose|j: int| 0 <= j < frontier@.len() && frontier@[j].0 == a && frontier@[j].1 == c;
                            assert(frontier[j] == frontier@[j]);
                        }
                    }
                }
                return Search::Found { dist, tx, ty, sx, sy };
            }
            proof {
                assert forall|a: int, c: int| #[trigger] reach(w, gx, gy, a, c, dist as nat) implies !in_range(w, a, c, f) by {
                    if !reach(w, gx, gy, a, c, d) {
                        assert(in_layer(w, gx, gy, a, c, dist as nat));
                        let j = choose|j: int| 0 <= j < frontier@.len() && frontier@[j].0 == a && frontier@[j].1 == c;
                        assert(frontier[j] == frontier@[j]);
                    }
                }
            }
        }
    }

    /// The target search for unit `id`: `NoEnemies` when no live enemy is
    /// left; else the nearest square in range of an enemy that the unit can
    /// reach over free squares (its own square, at distance zero, when it
    /// already is in range), first in reading order among those equally
    /// near, with the first step towards it: the first direction (north,
    /// west, east, south) that starts a shortest path there; `Unreachable`
    /// when there is none. The search reads the map as it is now and keeps
    /// nothing.
    pub fn find_targets(&self, id: usize) -> (r: Search)
        requires
            self.wf(),
            self.board().alive(id as int),
        ensures
            r == search_spec(self.board(), id as int),
            (r is NoEnemies) <==> !self.board().has_enemy_of(self.roster()[id as int].faction),
            r is Found ==> found_ok(self.board(), id as int, r),
            r is Unreachable ==> no_target(
                self.board(),
                self.roster()[id as int].faction,
                self.roster()[id as int].x as int,
                self.roster()[id as int].y as int,
            ),
    {
        let r = self.search_layers(id);
        proof {
            let b = self.board();
            let u = b.roster()[id as int];
            if r is Found {
                let r2 = choose|r2: Search| found_ok(b, id as int, r2);
                lemma_found_unique(b, id as int, r, r2);
            }
            if r is Unreachable {
                if exists|r2: Search| found_ok(b, id as int, r2) {
                    let r2 = choose|r2: Search| found_ok(b, id as int, r2);
                    if let Search::Found { dist, tx, ty, .. } = r2 {
                        assert(reach(b, u.x as int, u.y as int, tx as int, ty as int, dist as nat));
                    }
                }
            }
        }
        r
    }
}
} // verus!
