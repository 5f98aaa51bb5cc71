//! Unit turns, rounds, whole battles, and the search for the smallest elf
//! power that wins without a loss.

use vstd::prelude::*;
use crate::path::{Search, enemy_at, in_range, neighbor_pos, reading_lt, search_spec};
use crate::world::{Board, Faction, Layout, Rules, Square, Unit, World, hit, holds, hp_total, put, setup_spec};

verus! {

/// Hit points of the unit standing in column `x` of row `y`.
pub open spec fn hp_on(w: Board, x: int, y: int) -> int {
    w.roster()[w.at(x, y)->Unit_0 as int].hp as int
}

/// The `k`-th neighbour of unit `id` (north, west, east, south) is the enemy
/// it attacks: among its neighbouring enemies the one with the fewest hit
/// points, the first in reading order among those tied.
pub open spec fn attack_choice(w: Board, id: int, k: int) -> bool {
    let u = w.roster()[id];
    let p = neighbor_pos(u.x as int, u.y as int, k);
    &&& 0 <= k < 4
    &&& enemy_at(w, p.0, p.1, u.faction)
    &&& forall|j: int|
        0 <= j < 4 && enemy_at(
            w,
            #[trigger] neighbor_pos(u.x as int, u.y as int, j).0,
            neighbor_pos(u.x as int, u.y as int, j).1,
            u.faction,
        ) ==> {
            let q = neighbor_pos(u.x as int, u.y as int, j);
            ||| hp_on(w, p.0, p.1) < hp_on(w, q.0, q.1)
            ||| (hp_on(w, p.0, p.1) == hp_on(w, q.0, q.1) && k <= j)
        }
}

/// The neighbours are numbered in reading order.
pub proof fn lemma_neighbors_in_reading_order(x: int, y: int, j: int, k: int)
    requires
        0 <= j < k < 4,
    ensures
        reading_lt(
            neighbor_pos(x, y, j).0,
            neighbor_pos(x, y, j).1,
            neighbor_pos(x, y, k).0,
            neighbor_pos(x, y, k).1,
        ),
{
}

/// What came of a unit's turn.
#[derive(Clone, Copy, Debug, PartialEq, Eq)]
pub enum Turn {
    /// No live enemy was left: the battle is over.
    NoEnemies,
    /// The unit moved and attacked as far as it could; `attacked` is the
    /// enemy it hit, if any.
    Acted { attacked: Option<usize> },
}

/// How a round ended.
#[derive(Clone, Copy, Debug, PartialEq, Eq)]
pub enum RoundEnd {
    /// Every unit that was alive at its turn took it.
    Completed,
    /// A live unit found no enemy at its turn: the round is not complete.
    Ended,
    /// An elf died, and the round was abandoned there.
    ElfLost,
}

/// The two worlds hold the same units, each of the same faction.
pub open spec fn same_units(a: Board, b: Board) -> bool {
    &&& a.roster().len() == b.roster().len()
    &&& forall|j: int| 0 <= j < a.roster().len() ==> (#[trigger] a.roster()[j]).faction == b.roster()[j].faction
}

pub open spec fn some_alive(w: Board) -> bool {
    exists|j: int| #[trigger] w.alive(j)
}

/// The board after unit `id` steps to column `x` of row `y`.
pub open spec fn move_spec(b: Board, id: int, x: int, y: int) -> Board {
    let u = b.units[id];
    Board {
        cells: put(put(b.cells, u.x as int, u.y as int, Square::Open), x, y, Square::Unit(id as usize)),
        units: b.units.update(id, Unit { x: x as usize, y: y as usize, ..u }),
        ..b
    }
}

/// The board after unit `id` attacks the enemy of its choice, if any is
/// next to it, and the enemy attacked.
pub open spec fn attack_spec(b: Board, id: int) -> (Board, Option<usize>) {
    let u = b.units[id];
    if !in_range(b, u.x as int, u.y as int, u.faction) {
        (b, None)
    } else {
        let k = choose|k: int| attack_choice(b, id, k);
        let p = neighbor_pos(u.x as int, u.y as int, k);
        let t = b.at(p.0, p.1)->Unit_0;
        let v = b.units[t as int];
        (
            Board {
                cells: if v.hp <= u.power {
                    put(b.cells, v.x as int, v.y as int, Square::Open)
                } else {
                    b.cells
                },
                units: b.units.update(t as int, hit(v, u.power)),
                ..b
            },
            Some(t),
        )
    }
}

/// The board after the turn of unit `id`, and what came of it.
pub open spec fn turn_spec(b: Board, id: int) -> (Board, Turn) {
    match search_spec(b, id) {
        Search::NoEnemies => (b, Turn::NoEnemies),
        Search::Unreachable => (b, Turn::Acted { attacked: None }),
        Search::Found { dist, sx, sy, .. } => {
            let b1 = if dist > 0 { move_spec(b, id, sx as int, sy as int) } else { b };
            let (b2, t) = attack_spec(b1, id);
            (b2, Turn::Acted { attacked: t })
        },
    }
}

/// Unit `id` has one choice of enemy to attack.
pub proof fn lemma_attack_choice_unique(w: Board, id: int, k1: int, k2: int)
    requires
        attack_choice(w, id, k1),
        attack_choice(w, id, k2),
    ensures
        k1 == k2,
{
    let u = w.roster()[id];
    assert(enemy_at(w, neighbor_pos(u.x as int, u.y as int, k2).0, neighbor_pos(u.x as int, u.y as int, k2).1, u.faction));
    assert(enemy_at(w, neighbor_pos(u.x as int, u.y as int, k1).0, neighbor_pos(u.x as int, u.y as int, k1).1, u.faction));
}

impl World {
    /// Unit `id` attacks the neighbouring enemy of its choice (see
    /// `attack_choice`), which loses hit points equal to the attacker's
    /// power and leaves the map if none are left. Returns the enemy attacked,
    /// or `None` when no enemy is next to the unit.
    pub fn attack(&mut self, id: usize) -> (r: Option<usize>)
        requires
            old(self).wf(),
            old(self).board().alive(id as int),
        ensures
            final(self).wf(),
            final(self).same_terrain(old(self)),
            (r is None) <==> !in_range(
                old(self).board(),
                old(self).roster()[id as int].x as int,
                old(self).roster()[id as int].y as int,
                old(self).roster()[id as int].faction,
            ),
            r is None ==> *final(self) == *old(self),
            (final(self).board(), r) == attack_spec(old(self).board(), id as int),
            r matches Some(t) ==> {
                let u = old(self).roster()[id as int];
                let v = old(self).roster()[t as int];
                &&& exists|k: int|
                    attack_choice(old(self).board(), id as int, k) && holds(
                        old(self).board().at(
                            #[trigger] neighbor_pos(u.x as int, u.y as int, k).0,
                            neighbor_pos(u.x as int, u.y as int, k).1,
                        ),
                        t as int,
                    )
                &&& old(self).board().alive(t as int)
                &&& v.faction != u.faction
                &&& final(self).roster() == old(self).roster().update(t as int, hit(v, u.power))
                &&& final(self).rows() == if v.hp <= u.power {
                    put(old(self).rows(), v.x as int, v.y as int, Square::Open)
                } else {
                    old(self).rows()
                }
            },
    {
        let u = self.unit(id);
        let f = u.faction;
        assert(self.roster()[id as int].hp > 0);
        let ghost ux = u.x as int;
        let ghost uy = u.y as int;
        let mut best: Option<(usize, usize)> = None;
        let mut k: usize = 0;
        while k < 4
            invariant
                self.wf(),
                u == self.roster()[id as int],
                f == u.faction,
                self.board().in_bounds(ux, uy),
                ux == u.x,
                uy == u.y,
                k <= 4,
                best is None ==> forall|j: int|
                    0 <= j < k ==> !enemy_at(
                        self.board(),
                        #[trigger] neighbor_pos(ux, uy, j).0,
                        neighbor_pos(ux, uy, j).1,
                        f,
                    ),
                best matches Some((bk, t)) ==> {
                    let p = neighbor_pos(ux, uy, bk as int);
                    &&& bk < k
                    &&& enemy_at(self.board(), p.0, p.1, f)
                    &&& holds(self.board().at(p.0, p.1), t as int)
                    &&& forall|j: int|
                        0 <= j < k && enemy_at(
                            self.board(),
                            #[trigger] neighbor_pos(ux, uy, j).0,
                            neighbor_pos(ux, uy, j).1,
                            f,
                        ) ==> {
                            let q = neighbor_pos(ux, uy, j);
                            ||| hp_on(self.board(), p.0, p.1) < hp_on(self.board(), q.0, q.1)
                            ||| (hp_on(self.board(), p.0, p.1) == hp_on(self.board(), q.0, q.1) && bk <= j)
                        }
                },
            decreases 4 - k,
        {
            match self.neighbor(u.x, u.y, k) {
                Some((nx, ny)) => {
                    if self.enemy_on(nx, ny, f) {
                        let t = match self.square_at(nx, ny) {
                            Square::Unit(t) => t,
                            _ => 0,
                        };
                        match best {
                            None => {
                                best = Some((k, t));
                            },
                            Some((_, bt)) => {
                                if self.unit(t).hp < self.unit(bt).hp {
                                    best = Some((k, t));
                                }
                            },
                        }
                    }
                },
                None => {},
            }
            k = k + 1;
        }
        match best {
            None => {
                assert(!enemy_at(self.board(), neighbor_pos(ux, uy, 0).0, neighbor_pos(ux, uy, 0).1, f));
                assert(!enemy_at(self.board(), neighbor_pos(ux, uy, 1).0, neighbor_pos(ux, uy, 1).1, f));
                assert(!enemy_at(self.board(), neighbor_pos(ux, uy, 2).0, neighbor_pos(ux, uy, 2).1, f));
                assert(!enemy_at(self.board(), neighbor_pos(ux, uy, 3).0, neighbor_pos(ux, uy, 3).1, f));
                None
            },
            Some((bk, t)) => {
                let ghost w0 = *self;
                let ghost p = neighbor_pos(ux, uy, bk as int);
                assert(attack_choice(w0.board(), id as int, bk as int));
                assert(w0.board().alive(t as int));
                self.damage(t, u.power);
                proof {
                    let k2 = choose|k: int| attack_choice(w0.board(), id as int, k);
                    lemma_attack_choice_unique(w0.board(), id as int, bk as int, k2);
                    assert(self.board() == attack_spec(w0.board(), id as int).0);
                }
                Some(t)
            },
        }
    }
}

impl World {
    /// One turn of unit `id`: it searches for its targets on the map as it
    /// is now; if it is not in range of an enemy it takes one step towards
    /// the chosen square; then, if an enemy is next to it, it attacks.
    pub fn take_turn(&mut self, id: usize) -> (r: Turn)
        requires
            old(self).wf(),
            old(self).board().alive(id as int),
        ensures
            final(self).wf(),
            final(self).same_terrain(old(self)),
            same_units(final(self).board(), old(self).board()),
            (r is NoEnemies) <==> !old(self).board().has_enemy_of(old(self).roster()[id as int].faction),
            r is NoEnemies ==> *final(self) == *old(self),
            (final(self).board(), r) == turn_spec(old(self).board(), id as int),
            final(self).board().alive(id as int),
            final(self).roster()[id as int].hp == old(self).roster()[id as int].hp,
            forall|j: int|
                0 <= j < old(self).roster().len() && j != id && !(r == (Turn::Acted {
                    attacked: Some(j as usize),
                })) ==> #[trigger] final(self).roster()[j] == old(self).roster()[j],
            r matches Turn::Acted { attacked: Some(t) } ==> {
                &&& t != id
                &&& old(self).board().alive(t as int)
                &&& old(self).roster()[t as int].faction != old(self).roster()[id as int].faction
                &&& final(self).roster()[t as int] == hit(
                    old(self).roster()[t as int],
                    old(self).roster()[id as int].power,
                )
            },
    {
        let ghost w0 = *self;
        match self.find_targets(id) {
            Search::NoEnemies => Turn::NoEnemies,
            Search::Unreachable => Turn::Acted { attacked: None },
            Search::Found { dist, tx, ty, sx, sy } => {
                if dist > 0 {
                    self.move_unit(id, sx, sy);
                    assert(self.board() == move_spec(w0.board(), id as int, sx as int, sy as int));
                }
                let ghost w1 = *self;
                assert(w1.roster()[id as int].hp == w0.roster()[id as int].hp);
                let attacked = self.attack(id);
                proof {
                    if let Some(t) = attacked {
                        assert(t != id);
                    }
                }
                Turn::Acted { attacked }
            },
        }
    }
}

/// Unit `id` stands before column `x` of row `y` in reading order.
pub open spec fn stands_before(w: Board, id: int, x: int, y: int) -> bool {
    reading_lt(w.roster()[id].x as int, w.roster()[id].y as int, x, y)
}

/// `order` lists the live units of `w` in reading order of their squares.
pub open spec fn in_turn_order(w: Board, order: Seq<usize>) -> bool {
    &&& forall|j: int| 0 <= j < order.len() ==> w.alive(#[trigger] order[j] as int)
    &&& forall|j: int, k: int|
        0 <= j < k < order.len() ==> reading_lt(
            w.roster()[order[j] as int].x as int,
            w.roster()[order[j] as int].y as int,
            w.roster()[#[trigger] order[k] as int].x as int,
            w.roster()[order[k] as int].y as int,
        ) && #[trigger] order[j] != order[k]
    &&& forall|id: int| #[trigger] w.alive(id) ==> order.contains(id as usize)
}

/// The ids held by the squares of row `y` from column `x` on, left to right.
pub open spec fn scan_row(b: Board, y: int, x: int) -> Seq<usize>
    decreases b.width - x,
{
    if x < 0 || x >= b.width {
        Seq::empty()
    } else {
        (if b.at(x, y) is Unit {
            seq![b.at(x, y)->Unit_0]
        } else {
            Seq::empty()
        }) + scan_row(b, y, x + 1)
    }
}

/// The ids held by the squares of the rows from `y` on, in reading order.
pub open spec fn scan_rows(b: Board, y: int) -> Seq<usize>
    decreases b.height - y,
{
    if y < 0 || y >= b.height {
        Seq::empty()
    } else {
        scan_row(b, y, 0) + scan_rows(b, y + 1)
    }
}

/// The turn order of a round: the units on the map in reading order.
pub open spec fn order_spec(b: Board) -> Seq<usize> {
    scan_rows(b, 0)
}

impl World {
    /// The live units in reading order of their squares: the order in which
    /// they take their turns in a round.
    pub fn turn_order(&self) -> (order: Vec<usize>)
        requires
            self.wf(),
        ensures
            in_turn_order(self.board(), order@),
            order@ == order_spec(self.board()),
    {
        let mut order: Vec<usize> = Vec::new();
        let width = self.width();
        let height = self.height();
        for y in 0..height
            invariant
                self.wf(),
                width == self.w(),
                height == self.h(),
                forall|j: int|
                    0 <= j < order.len() ==> self.board().alive(#[trigger] order[j] as int) && stands_before(
                        self.board(),
                        order[j] as int,
                        0,
                        y as int,
                    ),
                forall|j: int, k: int|
                    0 <= j < k < order.len() ==> reading_lt(
                        self.roster()[order[j] as int].x as int,
                        self.roster()[order[j] as int].y as int,
                        self.roster()[#[trigger] order[k] as int].x as int,
                        self.roster()[order[k] as int].y as int,
                    ) && #[trigger] order[j] != order[k],
                forall|id: int|
                    #[trigger] self.board().alive(id) && stands_before(self.board(), id, 0, y as int) ==> order@.contains(
                        id as usize,
                    ),
                order@ + scan_rows(self.board(), y as int) == order_spec(self.board()),
        {
            for x in 0..width
                invariant
                    self.wf(),
                    width == self.w(),
                    height == self.h(),
                    y < height,
                    forall|j: int|
                        0 <= j < order.len() ==> self.board().alive(#[trigger] order[j] as int) && stands_before(
                            self.board(),
                            order[j] as int,
                            x as int,
                            y as int,
                        ),
                    forall|j: int, k: int|
                        0 <= j < k < order.len() ==> reading_lt(
                            self.roster()[order[j] as int].x as int,
                            self.roster()[order[j] as int].y as int,
                            self.roster()[#[trigger] order[k] as int].x as int,
                            self.roster()[order[k] as int].y as int,
                        ) && #[trigger] order[j] != order[k],
                    forall|id: int|
                        #[trigger] self.board().alive(id) && stands_before(self.board(), id, x as int, y as int)
                            ==> order@.contains(id as usize),
                    order@ + scan_row(self.board(), y as int, x as int) + scan_rows(self.board(), y + 1)
                        == order_spec(self.board()),
            {
                let ghost before = order@;
                let ghost b = self.board();
                assert(scan_row(b, y as int, x as int) == (if b.at(x as int, y as int) is Unit {
                    seq![b.at(x as int, y as int)->Unit_0]
                } else {
                    Seq::<usize>::empty()
                }) + scan_row(b, y as int, x + 1));
                match self.square_at(x, y) {
                    Square::Unit(id) => {
                        order.push(id);
                        assert(order@[order.len() - 1] == id);
                        assert(order@ + scan_row(b, y as int, x + 1) + scan_rows(b, y + 1) =~= before + (seq![id]
                            + scan_row(b, y as int, x + 1)) + scan_rows(b, y + 1));
                    },
                    _ => {
                        assert(order@ + scan_row(b, y as int, x + 1) + scan_rows(b, y + 1) =~= before + (Seq::<usize>::empty()
                            + scan_row(b, y as int, x + 1)) + scan_rows(b, y + 1));
                    },
                }
                assert forall|i: int| #[trigger] self.board().alive(i) && stands_before(self.board(), i, x + 1, y as int)
                    implies order@.contains(i as usize) by {
                    if stands_before(self.board(), i, x as int, y as int) {
                        assert(before.contains(i as usize));
                        let j = choose|j: int| 0 <= j < before.len() && before[j] == i as usize;
                        assert(order@[j] == i as usize);
                    } else {
                        assert(self.roster()[i].hp > 0);
                        assert(order@[order.len() - 1] == i as usize);
                    }
                }
            }
            assert forall|i: int| #[trigger] self.board().alive(i) && stands_before(self.board(), i, 0, y + 1)
                implies order@.contains(i as usize) by {
                assert(self.roster()[i].hp > 0);
                assert(stands_before(self.board(), i, width as int, y as int));
            }
        }
        assert forall|i: int| #[trigger] self.board().alive(i) implies order@.contains(i as usize) by {
            assert(self.roster()[i].hp > 0);
            assert(stands_before(self.board(), i, 0, height as int));
        }
        order
    }
}

/// How a battle ended.
#[derive(Clone, Copy, Debug, PartialEq, Eq, Structural)]
pub enum Ending {
    /// The faction has units left and its enemies have none.
    Won(Faction),
    /// An elf died in a battle run with elf losses not allowed.
    ElfDied,
    /// The round limit was reached with both factions still standing.
    Stalled,
}

/// The result of a battle.
#[derive(Clone, Copy, Debug, PartialEq, Eq)]
pub struct Outcome {
    pub ending: Ending,
    /// Number of completed rounds.
    pub rounds: u32,
    /// Sum of the hit points of the units left.
    pub hp_sum: u128,
}

/// A bound on any sum of hit points of a roster.
pub open spec fn hp_bound() -> int {
    0xffff_ffff_ffff_ffff_ffff_ffff
}

impl Outcome {
    /// The outcome value: completed rounds times the hit points left.
    pub fn value(&self) -> (r: u128)
        requires
            self.hp_sum <= hp_bound(),
        ensures
            r == self.rounds * self.hp_sum,
    {
        assert(self.rounds * self.hp_sum <= 0xffff_ffff * hp_bound()) by (nonlinear_arith)
            requires
                self.hp_sum <= hp_bound(),
                self.rounds <= 0xffff_ffff,
        ;
        self.rounds as u128 * self.hp_sum
    }
}

proof fn lemma_hp_total_bound(s: Seq<Unit>)
    ensures
        0 <= hp_total(s) <= s.len() * 0xffff_ffff,
    decreases s.len(),
{
    if s.len() > 0 {
        lemma_hp_total_bound(s.drop_last());
    }
}

/// The elves alive in `a` are alive in `b`.
pub open spec fn elves_kept(a: Board, b: Board) -> bool {
    forall|j: int| #[trigger] a.alive(j) && a.roster()[j].faction == Faction::Elf ==> b.alive(j)
}

/// No unit is alive in `b` that was dead in `a`.
pub open spec fn none_revived(a: Board, b: Board) -> bool {
    forall|j: int| #[trigger] b.alive(j) ==> a.alive(j)
}

/// The turn killed an elf.
pub open spec fn elf_killed(b: Board, t: Turn) -> bool {
    match t {
        Turn::Acted { attacked: Some(v) } => b.units[v as int].hp == 0 && b.units[v as int].faction == Faction::Elf,
        _ => false,
    }
}

/// The rest of a round from position `k` of its turn order: units that
/// are dead when their turn comes are skipped; a live unit that finds no
/// enemy ends the round, incomplete; with `stop`, an elf's death ends it
/// too.
pub open spec fn round_spec(b: Board, order: Seq<usize>, k: int, stop: bool) -> (Board, RoundEnd)
    decreases order.len() - k,
{
    if k < 0 || k >= order.len() {
        (b, RoundEnd::Completed)
    } else {
        let id = order[k] as int;
        if b.units[id].hp == 0 {
            round_spec(b, order, k + 1, stop)
        } else if !b.has_enemy_of(b.units[id].faction) {
            (b, RoundEnd::Ended)
        } else {
            let (b1, t) = turn_spec(b, id);
            if stop && elf_killed(b1, t) {
                (b1, RoundEnd::ElfLost)
            } else {
                round_spec(b1, order, k + 1, stop)
            }
        }
    }
}

/// The outcome once a faction has no enemies left, after `rounds`
/// completed rounds.
pub open spec fn finish_spec(b: Board, rounds: int) -> Outcome {
    Outcome {
        ending: if !b.has_enemy_of(Faction::Elf) {
            Ending::Won(Faction::Elf)
        } else {
            Ending::Won(Faction::Goblin)
        },
        rounds: rounds as u32,
        hp_sum: hp_total(b.units) as u128,
    }
}

/// The rest of a battle from board `b`, after `rounds` completed rounds:
/// rounds are played until one ends incomplete or leaves a faction without
/// enemies, until an elf dies when `stop` is set, or until `max_rounds`
/// rounds are complete.
pub open spec fn run_spec(b: Board, max_rounds: int, rounds: int, stop: bool) -> (Board, Outcome)
    decreases max_rounds - rounds,
{
    if rounds >= max_rounds {
        (b, Outcome { ending: Ending::Stalled, rounds: rounds as u32, hp_sum: hp_total(b.units) as u128 })
    } else {
        let (b1, e) = round_spec(b, order_spec(b), 0, stop);
        match e {
            RoundEnd::Ended => (b1, finish_spec(b1, rounds)),
            RoundEnd::ElfLost => (
                b1,
                Outcome { ending: Ending::ElfDied, rounds: rounds as u32, hp_sum: hp_total(b1.units) as u128 },
            ),
            RoundEnd::Completed => if !b1.has_enemy_of(Faction::Elf) || !b1.has_enemy_of(Faction::Goblin) {
                (b1, finish_spec(b1, rounds + 1))
            } else {
                run_spec(b1, max_rounds, rounds + 1, stop)
            },
        }
    }
}

/// A round that a live unit finds without enemies at its turn ends there,
/// incomplete, and is not counted: the battle's outcome keeps the number of
/// rounds completed before it.
pub proof fn lemma_incomplete_round_not_counted(b: Board, max_rounds: int, rounds: int, stop: bool)
    requires
        0 <= rounds < max_rounds,
        rounds <= u32::MAX,
        round_spec(b, order_spec(b), 0, stop).1 == RoundEnd::Ended,
    ensures
        run_spec(b, max_rounds, rounds, stop).1.rounds == rounds,
        run_spec(b, max_rounds, rounds, stop).1.ending is Won,
{
}

/// When the unit whose turn comes at position `k` of the turn order is
/// alive and finds no enemy left, the round ends there, incomplete, with
/// the board as it is.
pub proof fn lemma_round_ends_at_first_unit_without_enemies(b: Board, order: Seq<usize>, k: int, stop: bool)
    requires
        0 <= k < order.len(),
        b.units[order[k] as int].hp > 0,
        !b.has_enemy_of(b.units[order[k] as int].faction),
    ensures
        round_spec(b, order, k, stop) == (b, RoundEnd::Ended),
{
}

/// A battle is determined by the state it starts from: whatever the
/// world that holds a given state, `run` plays the same rounds to the same
/// end and reports the same outcome, since its result is `run_spec` of
/// that state.
pub proof fn lemma_battle_determined(a: World, b: World, max_rounds: int, stop: bool)
    requires
        a.board() == b.board(),
    ensures
        run_spec(a.board(), max_rounds, 0, stop) == run_spec(b.board(), max_rounds, 0, stop),
{
}

impl World {
    /// One round: the live units take their turns in reading order, as
    /// fixed at the start of the round; a unit that died before its turn is
    /// skipped. The round ends early, incomplete, as soon as a live unit
    /// finds no enemy at its turn; with `stop_on_elf_loss`, also as soon as
    /// an elf dies.
    pub fn play_round(&mut self, stop_on_elf_loss: bool) -> (r: RoundEnd)
        requires
            old(self).wf(),
            some_alive(old(self).board()),
        ensures
            final(self).wf(),
            final(self).same_terrain(old(self)),
            same_units(final(self).board(), old(self).board()),
            some_alive(final(self).board()),
            none_revived(old(self).board(), final(self).board()),
            r == RoundEnd::Ended ==> exists|j: int|
                #[trigger] final(self).board().alive(j) && !final(self).board().has_enemy_of(final(self).roster()[j].faction),
            r == RoundEnd::ElfLost ==> stop_on_elf_loss && !elves_kept(old(self).board(), final(self).board()),
            stop_on_elf_loss && r != RoundEnd::ElfLost ==> elves_kept(old(self).board(), final(self).board()),
            (final(self).board(), r) == round_spec(old(self).board(), order_spec(old(self).board()), 0, stop_on_elf_loss),
    {
        let ghost w0 = *self;
        let order = self.turn_order();
        for k in 0..order.len()
            invariant
                w0 == *old(self),
                self.wf(),
                self.same_terrain(&w0),
                same_units(self.board(), w0.board()),
                some_alive(self.board()),
                none_revived(w0.board(), self.board()),
                stop_on_elf_loss ==> elves_kept(w0.board(), self.board()),
                in_turn_order(w0.board(), order@),
                round_spec(self.board(), order@, k as int, stop_on_elf_loss) == round_spec(
                    w0.board(),
                    order_spec(w0.board()),
                    0,
                    stop_on_elf_loss,
                ),
                order@ == order_spec(w0.board()),
        {
            let id = order[k];
            assert(w0.board().alive(id as int));
            if self.unit(id).hp > 0 {
                let f = self.unit(id).faction;
                if !self.enemies_exist(f) {
                    return RoundEnd::Ended;
                }
                let ghost prev = *self;
                let turn = self.take_turn(id);
                assert(self.board().alive(id as int));
                assert forall|j: int| #[trigger] self.board().alive(j) implies w0.board().alive(j) by {
                    assert(prev.board().alive(j));
                }
                match turn {
                    Turn::Acted { attacked: Some(t) } => {
                        if stop_on_elf_loss && self.unit(t).hp == 0 && self.unit(t).faction == Faction::Elf {
                            assert(w0.board().alive(t as int));
                            assert(!self.board().alive(t as int));
                            return RoundEnd::ElfLost;
                        }
                        assert(stop_on_elf_loss ==> elves_kept(w0.board(), self.board())) by {
                            if stop_on_elf_loss {
                                assert forall|j: int| #[trigger] w0.board().alive(j) && w0.roster()[j].faction == Faction::Elf
                                    implies self.board().alive(j) by {
                                    assert(prev.board().alive(j));
                                    assert(prev.roster()[j].faction == Faction::Elf);
                                }
                            }
                        }
                    },
                    _ => {
                        assert(stop_on_elf_loss ==> elves_kept(w0.board(), self.board())) by {
                            if stop_on_elf_loss {
                                assert forall|j: int| #[trigger] w0.board().alive(j) && w0.roster()[j].faction == Faction::Elf
                                    implies self.board().alive(j) by {
                                    assert(prev.board().alive(j));
                                }
                            }
                        }
                    },
                }
            }
        }
        RoundEnd::Completed
    }

    /// The outcome once one faction has no enemies left.
    fn finish(&self, rounds: u32) -> (out: Outcome)
        requires
            self.wf(),
            some_alive(self.board()),
            !self.board().has_enemy_of(Faction::Elf) || !self.board().has_enemy_of(Faction::Goblin),
        ensures
            out.rounds == rounds,
            out.hp_sum == hp_total(self.roster()),
            out.hp_sum <= hp_bound(),
            out.ending matches Ending::Won(f) && !self.board().has_enemy_of(f) && exists|j: int|
                #[trigger] self.board().alive(j) && self.roster()[j].faction == f,
            out == finish_spec(self.board(), rounds as int),
    {
        let ending = if !self.enemies_exist(Faction::Elf) {
            Ending::Won(Faction::Elf)
        } else {
            Ending::Won(Faction::Goblin)
        };
        let hp_sum = self.hp_sum_bounded();
        let ghost j = choose|j: int| #[trigger] self.board().alive(j);
        assert(self.roster()[j].faction == Faction::Elf || self.roster()[j].faction == Faction::Goblin);
        Outcome { ending, rounds, hp_sum }
    }

    fn hp_sum_bounded(&self) -> (r: u128)
        ensures
            r == hp_total(self.roster()),
            r <= hp_bound(),
    {
        let n = self.unit_count();
        proof {
            lemma_hp_total_bound(self.roster());
            assert(n * 0xffff_ffff <= hp_bound()) by (nonlinear_arith)
                requires
                    n <= 0xffff_ffff_ffff_ffffu64,
            ;
        }
        self.hp_sum()
    }

    /// Plays rounds until one faction has no enemies left, counting only
    /// completed rounds; gives up after `max_rounds` completed rounds, and,
    /// with `stop_on_elf_loss`, at the first elf death.
    pub fn run(&mut self, max_rounds: u32, stop_on_elf_loss: bool) -> (out: Outcome)
        requires
            old(self).wf(),
            some_alive(old(self).board()),
        ensures
            final(self).wf(),
            final(self).same_terrain(old(self)),
            same_units(final(self).board(), old(self).board()),
            out.rounds <= max_rounds,
            out.hp_sum == hp_total(final(self).roster()),
            out.hp_sum <= hp_bound(),
            out.ending matches Ending::Won(f) ==> !final(self).board().has_enemy_of(f) && exists|j: int|
                #[trigger] final(self).board().alive(j) && final(self).roster()[j].faction == f,
            out.ending == Ending::Stalled ==> out.rounds == max_rounds,
            out.ending == Ending::ElfDied ==> stop_on_elf_loss && !elves_kept(old(self).board(), final(self).board()),
            stop_on_elf_loss && out.ending != Ending::ElfDied ==> elves_kept(old(self).board(), final(self).board()),
            (final(self).board(), out) == run_spec(old(self).board(), max_rounds as int, 0, stop_on_elf_loss),
    {
        let ghost w0 = *self;
        let mut rounds: u32 = 0;
        loop
            invariant
                w0 == *old(self),
                self.wf(),
                self.same_terrain(&w0),
                same_units(self.board(), w0.board()),
                some_alive(self.board()),
                none_revived(w0.board(), self.board()),
                stop_on_elf_loss ==> elves_kept(w0.board(), self.board()),
                rounds <= max_rounds,
                run_spec(self.board(), max_rounds as int, rounds as int, stop_on_elf_loss) == run_spec(
                    w0.board(),
                    max_rounds as int,
                    0,
                    stop_on_elf_loss,
                ),
            decreases max_rounds - rounds,
        {
            if rounds == max_rounds {
                let hp_sum = self.hp_sum_bounded();
                return Outcome { ending: Ending::Stalled, rounds, hp_sum };
            }
            let ghost prev = *self;
            let end = self.play_round(stop_on_elf_loss);
            assert forall|j: int| #[trigger] self.board().alive(j) implies w0.board().alive(j) by {
                assert(prev.board().alive(j));
            }
            match end {
                RoundEnd::Ended => {
                    let ghost j = choose|j: int|
                        #[trigger] self.board().alive(j) && !self.board().has_enemy_of(self.roster()[j].faction);
                    assert(self.roster()[j].faction == Faction::Elf || self.roster()[j].faction == Faction::Goblin);
                    return self.finish(rounds);
                },
                RoundEnd::ElfLost => {
                    assert(!elves_kept(w0.board(), self.board())) by {
                        let j = choose|j: int|
                            !(#[trigger] prev.board().alive(j) && prev.roster()[j].faction == Faction::Elf ==> self.board().alive(j));
                        assert(w0.board().alive(j));
                    }
                    let hp_sum = self.hp_sum_bounded();
                    return Outcome { ending: Ending::ElfDied, rounds, hp_sum };
                },
                RoundEnd::Completed => {
                    rounds = rounds + 1;
                    if !self.enemies_exist(Faction::Elf) || !self.enemies_exist(Faction::Goblin) {
                        return self.finish(rounds);
                    }
                },
            }
        }
    }
}

/// The starting state of a trial battle on `layout` with elf power `p`.
pub open spec fn trial_start(layout: Layout, rules: Rules, p: u32) -> Board {
    setup_spec(layout, Rules { elf_power: p, ..rules })
}

/// The final state of that trial, abandoned at the first elf death.
pub open spec fn trial_end(layout: Layout, rules: Rules, p: u32) -> Board {
    run_spec(trial_start(layout, rules, p), rules.max_rounds as int, 0, true).0
}

/// The outcome of that trial.
pub open spec fn trial(layout: Layout, rules: Rules, p: u32) -> Outcome {
    run_spec(trial_start(layout, rules, p), rules.max_rounds as int, 0, true).1
}

/// The highest elf power that the calibration tries.
pub open spec fn top_power(rules: Rules) -> int {
    if rules.hit_points > rules.elf_power + 1 {
        rules.hit_points as int
    } else {
        rules.elf_power + 1
    }
}

/// The smallest elf power above `rules.elf_power` with which the elves win
/// without losing a unit, with the outcome of that battle. Powers at or above
/// the starting hit points all kill with one blow, so the search ends at the
/// larger of that value and the first power tried; `None` when no power up to
/// there is enough.
pub fn calibrate(layout: &Layout, rules: Rules) -> (r: Option<(u32, Outcome)>)
    requires
        layout.wf(),
        rules.hit_points > 0,
    ensures
        r matches Some((p, out)) ==> {
            &&& rules.elf_power < p <= top_power(rules)
            &&& out == trial(*layout, rules, p)
            &&& out.ending == Ending::Won(Faction::Elf)
            &&& elves_kept(trial_start(*layout, rules, p), trial_end(*layout, rules, p))
            &&& out.rounds <= rules.max_rounds
            &&& out.hp_sum <= hp_bound()
            &&& forall|q: u32|
                rules.elf_power < q < p ==> (#[trigger] trial(*layout, rules, q)).ending != Ending::Won(Faction::Elf)
        },
        r is None ==> forall|q: u32|
            rules.elf_power < q <= top_power(rules) ==> (#[trigger] trial(*layout, rules, q)).ending
                != Ending::Won(Faction::Elf),
{
    if rules.elf_power == u32::MAX {
        return None;
    }
    let top: u32 = if rules.hit_points > rules.elf_power + 1 { rules.hit_points } else { rules.elf_power + 1 };
    let mut power: u32 = rules.elf_power;
    while power < top
        invariant
            layout.wf(),
            rules.hit_points > 0,
            rules.elf_power <= power <= top,
            top == top_power(rules),
            top > rules.elf_power,
            forall|q: u32|
                rules.elf_power < q <= power ==> (#[trigger] trial(*layout, rules, q)).ending != Ending::Won(Faction::Elf),
        decreases top - power,
    {
        power = power + 1;
        let trial_rules = Rules { elf_power: power, ..rules };
        let mut world = World::new(layout, trial_rules);
        assert(world.board().alive(0));
        let out = world.run(rules.max_rounds, true);
        assert(out == trial(*layout, rules, power));
        if out.ending == Ending::Won(Faction::Elf) {
            return Some((power, out));
        }
    }
    None
}

} // verus!
