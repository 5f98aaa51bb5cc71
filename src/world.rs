//! The battlefield: immutable terrain, the occupancy overlay that says which
//! unit stands on which open square, and the arena of units addressed by id.

use vstd::prelude::*;
use advtools::grid::Grid;

verus! {

#[verifier::external_type_specification]
#[verifier::external_body]
#[verifier::reject_recursive_types(T)]
pub struct ExGrid<T>(Grid<T>);

/// One of the two sides of a battle.
#[derive(Clone, Copy, Debug, PartialEq, Eq, Structural)]
pub enum Faction {
    Elf,
    Goblin,
}

/// A square of the map during a battle: a wall, free floor, or floor with a
/// live unit standing on it (by its id).
#[derive(Clone, Copy, Debug, PartialEq, Eq, Structural)]
pub enum Square {
    Wall,
    Open,
    Unit(usize),
}

/// A square of the map as written in its text.
#[derive(Clone, Copy, Debug, PartialEq, Eq, Structural)]
pub enum Tile {
    Wall,
    Open,
    Elf,
    Goblin,
}

/// Why a map text was refused.
#[derive(Clone, Copy, Debug, PartialEq, Eq)]
pub enum MapError {
    /// No lines, or an empty first line.
    Empty,
    /// A line whose length differs from the first one.
    Ragged,
    /// A character that is neither `#`, `.`, `E` nor `G`.
    UnknownSquare(char),
    /// A map without any unit.
    NoUnits,
    /// A map with more squares than a `usize` can count.
    TooLarge,
}

/// The rows of a grid, each as long as the grid is wide.
pub uninterp spec fn grid_rows(g: Grid<Square>) -> Seq<Seq<Square>>;

/// Relies on advtools' `Grid::new`: the rows appended in order, the width
/// being that of the first row. It panics on no rows, on rows of unequal
/// length, and (dividing by the width) on an empty first row.
#[verifier::external_body]
fn grid_from_rows(rows: Vec<Vec<Square>>) -> (g: Grid<Square>)
    requires
        rows.len() > 0,
        rows[0].len() > 0,
        forall|y: int| 0 <= y < rows.len() ==> #[trigger] rows[y].len() == rows[0].len(),
    ensures
        grid_rows(g).len() == rows.len(),
        forall|y: int| 0 <= y < rows.len() ==> #[trigger] grid_rows(g)[y] == rows[y]@,
{
    Grid::new(rows)
}

/// Relies on advtools' `Index<(usize, usize)>` for `Grid`: the square in
/// column `x` of row `y`.
#[verifier::external_body]
fn grid_at(g: &Grid<Square>, x: usize, y: usize) -> (s: Square)
    requires
        y < grid_rows(*g).len(),
        x < grid_rows(*g)[y as int].len(),
    ensures
        s == grid_rows(*g)[y as int][x as int],
{
    g[(x, y)]
}

/// Relies on advtools' `IndexMut<(usize, usize)>` for `Grid`: overwrites the
/// square in column `x` of row `y`, and nothing else.
#[verifier::external_body]
fn grid_put(g: &mut Grid<Square>, x: usize, y: usize, s: Square)
    requires
        y < grid_rows(*old(g)).len(),
        x < grid_rows(*old(g))[y as int].len(),
    ensures
        grid_rows(*final(g)) == grid_rows(*old(g)).update(
            y as int,
            grid_rows(*old(g))[y as int].update(x as int, s),
        ),
{
    g[(x, y)] = s;
}

/// The tile that a character of the map text stands for.
pub open spec fn tile_of(c: char) -> Option<Tile> {
    if c == '#' {
        Some(Tile::Wall)
    } else if c == '.' {
        Some(Tile::Open)
    } else if c == 'E' {
        Some(Tile::Elf)
    } else if c == 'G' {
        Some(Tile::Goblin)
    } else {
        None
    }
}

/// The characters of each line.
pub open spec fn text_of(lines: Seq<Vec<char>>) -> Seq<Seq<char>> {
    Seq::new(lines.len(), |y: int| lines[y]@)
}

pub open spec fn is_unit_tile(t: Tile) -> bool {
    t == Tile::Elf || t == Tile::Goblin
}

/// Every line is as long as the first.
pub open spec fn rectangular(lines: Seq<Seq<char>>) -> bool {
    forall|y: int| 0 <= y < lines.len() ==> #[trigger] lines[y].len() == lines[0].len()
}

pub open spec fn all_known(lines: Seq<Seq<char>>) -> bool {
    forall|y: int, x: int|
        0 <= y < lines.len() && 0 <= x < lines[y].len() ==> (#[trigger] tile_of(lines[y][x])) is Some
}

pub open spec fn has_unit(lines: Seq<Seq<char>>) -> bool {
    exists|y: int, x: int|
        0 <= y < lines.len() && 0 <= x < lines[y].len() && (lines[y][x] == 'E' || lines[y][x] == 'G')
}

/// A parsed map: a non-empty rectangle of tiles holding at least one unit.
pub struct Layout {
    tiles: Vec<Vec<Tile>>,
}

impl Layout {
    pub closed spec fn tiles(&self) -> Seq<Seq<Tile>> {
        self.tiles@.map_values(|r: Vec<Tile>| r@)
    }

    pub open spec fn height(&self) -> int {
        self.tiles().len() as int
    }

    pub open spec fn width(&self) -> int {
        self.tiles()[0].len() as int
    }

    pub open spec fn wf(&self) -> bool {
        &&& self.height() > 0
        &&& self.width() > 0
        &&& forall|y: int| 0 <= y < self.height() ==> #[trigger] self.tiles()[y].len() == self.width()
        &&& exists|y: int, x: int|
            0 <= y < self.height() && 0 <= x < self.width() && is_unit_tile(#[trigger] self.tiles()[y][x])
        &&& self.width() * self.height() <= usize::MAX
    }

    /// The tile in column `x` of row `y`.
    pub fn tile(&self, x: usize, y: usize) -> (t: Tile)
        requires
            self.wf(),
            y < self.height(),
            x < self.width(),
        ensures
            t == self.tiles()[y as int][x as int],
    {
        self.tiles[y][x]
    }

    pub fn height_of(&self) -> (n: usize)
        ensures
            n == self.height(),
    {
        self.tiles.len()
    }

    pub fn width_of(&self) -> (n: usize)
        requires
            self.wf(),
        ensures
            n == self.width(),
    {
        self.tiles[0].len()
    }
}

/// Reads a map text, one line per row (the row index is y, the column index
/// x): `#` is a wall, `.` open floor, `E` an elf and `G` a goblin, each of
/// those standing on open floor.
pub fn parse_map(lines: &Vec<Vec<char>>) -> (r: Result<Layout, MapError>)
    ensures
        (r matches Err(MapError::Empty)) <==> lines.len() == 0 || lines[0].len() == 0,
        (r matches Err(MapError::Ragged)) <==> lines.len() > 0 && lines[0].len() > 0
            && !rectangular(text_of(lines@)),
        (r matches Err(MapError::UnknownSquare(_))) <==> lines.len() > 0 && lines[0].len() > 0
            && rectangular(text_of(lines@))
            && !all_known(text_of(lines@)),
        r matches Err(MapError::UnknownSquare(c)) ==> tile_of(c) is None && exists|y: int, x: int|
            0 <= y < lines.len() && 0 <= x < lines[y].len() && lines[y][x] == c && forall|k: int, i: int|
                0 <= k < lines.len() && 0 <= i < lines[k].len() && (k < y || (k == y && i < x))
                    ==> (#[trigger] tile_of(lines[k][i])) is Some,
        (r matches Err(MapError::NoUnits)) <==> lines.len() > 0 && lines[0].len() > 0
            && rectangular(text_of(lines@))
            && all_known(text_of(lines@))
            && !has_unit(text_of(lines@)),
        (r matches Err(MapError::TooLarge)) <==> lines.len() > 0 && lines[0].len() > 0
            && rectangular(text_of(lines@)) && all_known(text_of(lines@)) && has_unit(text_of(lines@))
            && lines.len() * lines[0].len() > usize::MAX,
        (r is Ok) ==> r->Ok_0.wf() && r->Ok_0.height() == lines.len()
            && forall|y: int, x: int|
                0 <= y < lines.len() && 0 <= x < lines[y].len() ==> Some(
                    #[trigger] r->Ok_0.tiles()[y][x],
                ) == tile_of(lines[y][x]),
{
    let ghost text = text_of(lines@);
    if lines.len() == 0 || lines[0].len() == 0 {
        return Err(MapError::Empty);
    }
    let width = lines[0].len();
    for y in 0..lines.len()
        invariant
            lines.len() > 0,
            width == lines[0].len(),
            width > 0,
            text == text_of(lines@),
            forall|k: int| 0 <= k < y ==> #[trigger] lines[k].len() == width,
    {
        if lines[y].len() != width {
            assert(text[y as int].len() != text[0].len());
            assert(!rectangular(text));
            return Err(MapError::Ragged);
        }
    }
    assert forall|k: int| 0 <= k < text.len() implies #[trigger] text[k].len() == text[0].len() by {
        assert(lines[k].len() == width);
    }
    assert(rectangular(text));
    let mut tiles: Vec<Vec<Tile>> = Vec::new();
    let mut units: bool = false;
    for y in 0..lines.len()
        invariant
            lines.len() > 0,
            width == lines[0].len(),
            width > 0,
            text == text_of(lines@),
            rectangular(text),
            tiles.len() == y,
            forall|k: int| 0 <= k < y ==> #[trigger] tiles[k].len() == width,
            forall|k: int, x: int|
                0 <= k < y && 0 <= x < width ==> Some(#[trigger] tiles[k][x]) == tile_of(text[k][x]),
            units <==> exists|k: int, x: int|
                0 <= k < y && 0 <= x < width && (text[k][x] == 'E' || text[k][x] == 'G'),
    {
        let line = &lines[y];
        assert(line@ == text[y as int]);
        let mut row: Vec<Tile> = Vec::new();
        for x in 0..width
            invariant
                lines.len() > 0,
                0 <= y < lines.len(),
                width == lines[0].len(),
                text == text_of(lines@),
                rectangular(text),
                line@ == text[y as int],
                line.len() == width,
                row.len() == x,
                tiles.len() == y,
                forall|k: int| 0 <= k < y ==> #[trigger] tiles[k].len() == width,
                forall|k: int, i: int|
                    0 <= k < y && 0 <= i < width ==> Some(#[trigger] tiles[k][i]) == tile_of(text[k][i]),
                forall|i: int| 0 <= i < x ==> Some(#[trigger] row[i]) == tile_of(line@[i]),
                units <==> (exists|k: int, i: int|
                    0 <= k < y && 0 <= i < width && (text[k][i] == 'E' || text[k][i] == 'G'))
                    || (exists|i: int| 0 <= i < x && (line@[i] == 'E' || line@[i] == 'G')),
        {
            let c = line[x];
            let t = if c == '#' {
                Tile::Wall
            } else if c == '.' {
                Tile::Open
            } else if c == 'E' {
                units = true;
                Tile::Elf
            } else if c == 'G' {
                units = true;
                Tile::Goblin
            } else {
                assert(tile_of(text[y as int][x as int]) is None);
                assert(!all_known(text));
                assert forall|k: int, i: int|
                    0 <= k < lines.len() && 0 <= i < lines[k].len() && (k < y || (k == y && i < x))
                        implies (#[trigger] tile_of(lines[k][i])) is Some by {
                    assert(text[k][i] == lines[k][i]);
                    if k < y {
                        assert(Some(tiles[k][i]) == tile_of(text[k][i]));
                    } else {
                        assert(Some(row[i]) == tile_of(line@[i]));
                    }
                }
                assert(lines[y as int][x as int] == c);
                return Err(MapError::UnknownSquare(c));
            };
            row.push(t);
        }
        tiles.push(row);
        assert forall|k: int, x: int|
            0 <= k < y + 1 && 0 <= x < width implies Some(#[trigger] tiles[k][x]) == tile_of(text[k][x]) by {
            if k == y {
                assert(tiles[k] == row);
            }
        }
        assert(units <==> exists|k: int, i: int|
            0 <= k < y + 1 && 0 <= i < width && (text[k][i] == 'E' || text[k][i] == 'G')) by {
            if units {
                if !(exists|k: int, i: int|
                    0 <= k < y && 0 <= i < width && (text[k][i] == 'E' || text[k][i] == 'G')) {
                    let i = choose|i: int| 0 <= i < width && (line@[i] == 'E' || line@[i] == 'G');
                    assert(text[y as int][i] == line@[i]);
                }
            }
        }
    }
    assert forall|k: int, x: int| 0 <= k < text.len() && 0 <= x < text[k].len()
        implies (#[trigger] tile_of(text[k][x])) is Some by {
        assert(Some(tiles[k][x]) == tile_of(text[k][x]));
    }
    assert(all_known(text));
    if !units {
        return Err(MapError::NoUnits);
    }
    assert(has_unit(text));
    assert(lines.len() * width == width * lines.len()) by (nonlinear_arith);
    if width.checked_mul(lines.len()).is_none() {
        return Err(MapError::TooLarge);
    }
    let layout = Layout { tiles };
    assert(layout.tiles().len() == tiles.len());
    assert forall|y: int| 0 <= y < layout.height() implies #[trigger] layout.tiles()[y] == tiles[y]@ by {}
    assert(has_unit(text));
    assert forall|y: int, x: int| 0 <= y < lines.len() && 0 <= x < lines[y].len()
        implies Some(#[trigger] layout.tiles()[y][x]) == tile_of(lines[y][x]) by {
        assert(text[y][x] == lines[y][x]);
        assert(layout.tiles()[y] == tiles[y]@);
    }
    assert forall|y: int| 0 <= y < layout.height() implies #[trigger] layout.tiles()[y].len() == width by {
        assert(layout.tiles()[y] == tiles[y]@);
        assert(tiles[y].len() == width);
    }
    assert(layout.width() == width);
    let ghost (uy, ux) = choose|k: int, i: int|
        0 <= k < text.len() && 0 <= i < width && (text[k][i] == 'E' || text[k][i] == 'G');
    assert(is_unit_tile(layout.tiles()[uy][ux])) by {
        assert(Some(tiles[uy][ux]) == tile_of(text[uy][ux]));
        assert(layout.tiles()[uy] == tiles[uy]@);
    }
    assert(layout.wf());
    Ok(layout)
}

/// The rule constants of a battle.
#[derive(Clone, Copy, Debug, PartialEq, Eq)]
pub struct Rules {
    /// Hit points of every unit at the start.
    pub hit_points: u32,
    /// Attack power of the elves.
    pub elf_power: u32,
    /// Attack power of the goblins.
    pub goblin_power: u32,
    /// Rounds after which a battle that has not ended is called off.
    pub max_rounds: u32,
}

/// A combatant. It is alive while its hit points are above zero.
#[derive(Clone, Copy, Debug, PartialEq, Eq, Structural)]
pub struct Unit {
    pub faction: Faction,
    pub x: usize,
    pub y: usize,
    pub hp: u32,
    pub power: u32,
}

pub open spec fn power_of(rules: Rules, f: Faction) -> u32 {
    match f {
        Faction::Elf => rules.elf_power,
        Faction::Goblin => rules.goblin_power,
    }
}

pub open spec fn faction_of_tile(t: Tile) -> Faction {
    if t == Tile::Elf { Faction::Elf } else { Faction::Goblin }
}

/// A unit as it enters the battle from the tile in column `x` of row `y`.
pub open spec fn fresh_unit(u: Unit, t: Tile, x: int, y: int, rules: Rules) -> bool {
    &&& u.faction == faction_of_tile(t)
    &&& u.x == x
    &&& u.y == y
    &&& u.hp == rules.hit_points
    &&& u.power == power_of(rules, u.faction)
}

/// The square that the tile in column `x` of row `y` becomes when a battle starts.
pub open spec fn placed(t: Tile, s: Square, units: Seq<Unit>, x: int, y: int, rules: Rules) -> bool {
    match t {
        Tile::Wall => s == Square::Wall,
        Tile::Open => s == Square::Open,
        _ => s is Unit && s->Unit_0 < units.len() && fresh_unit(units[s->Unit_0 as int], t, x, y, rules),
    }
}

/// A unit after taking `amount` damage.
pub open spec fn hit(u: Unit, amount: u32) -> Unit {
    Unit { hp: if u.hp <= amount { 0 } else { (u.hp - amount) as u32 }, ..u }
}

/// The rows with the square in column `x` of row `y` set to `s`.
pub open spec fn put(rows: Seq<Seq<Square>>, x: int, y: int, s: Square) -> Seq<Seq<Square>> {
    rows.update(y, rows[y].update(x, s))
}

/// Square `s` holds the unit with id `id`.
pub open spec fn holds(s: Square, id: int) -> bool {
    s is Unit && s->Unit_0 == id
}

/// The unit that enters the battle from tile `t` in column `x` of row `y`.
pub open spec fn fresh(t: Tile, x: int, y: int, rules: Rules) -> Unit {
    Unit {
        faction: faction_of_tile(t),
        x: x as usize,
        y: y as usize,
        hp: rules.hit_points,
        power: power_of(rules, faction_of_tile(t)),
    }
}

/// The units entering from the first `x` tiles of row `y`, left to right.
pub open spec fn spawn_row(tiles: Seq<Seq<Tile>>, rules: Rules, y: int, x: int) -> Seq<Unit>
    decreases x,
{
    if x <= 0 {
        Seq::empty()
    } else {
        spawn_row(tiles, rules, y, x - 1) + if is_unit_tile(tiles[y][x - 1]) {
            seq![fresh(tiles[y][x - 1], x - 1, y, rules)]
        } else {
            Seq::empty()
        }
    }
}

/// The units entering from the first `y` rows, in reading order.
pub open spec fn spawn_rows(tiles: Seq<Seq<Tile>>, rules: Rules, y: int) -> Seq<Unit>
    decreases y,
{
    if y <= 0 {
        Seq::empty()
    } else {
        spawn_rows(tiles, rules, y - 1) + spawn_row(tiles, rules, y - 1, tiles[y - 1].len() as int)
    }
}

/// The arena of a new battle: one unit per `E` or `G`, in reading order.
pub open spec fn spawn(tiles: Seq<Seq<Tile>>, rules: Rules) -> Seq<Unit> {
    spawn_rows(tiles, rules, tiles.len() as int)
}

/// `b` is the starting state of a battle on `layout` under `rules`.
pub open spec fn setup_ok(b: Board, layout: Layout, rules: Rules) -> bool {
    &&& b.width == layout.width()
    &&& b.height == layout.height()
    &&& b.cells.len() == b.height
    &&& forall|y: int| 0 <= y < b.height ==> (#[trigger] b.cells[y]).len() == b.width
    &&& b.units == spawn(layout.tiles(), rules)
    &&& forall|x: int, y: int|
        b.in_bounds(x, y) ==> placed(layout.tiles()[y][x], #[trigger] b.at(x, y), b.units, x, y, rules)
    &&& forall|i: int, j: int|
        0 <= i < j < b.units.len() ==> (#[trigger] b.units[i].x, b.units[i].y) != (
            #[trigger] b.units[j].x,
            b.units[j].y,
        )
}

/// The starting state of a battle on `layout` under `rules`.
pub open spec fn setup_spec(layout: Layout, rules: Rules) -> Board {
    choose|b: Board| setup_ok(b, layout, rules)
}

proof fn lemma_setup_unique(b1: Board, b2: Board, layout: Layout, rules: Rules)
    requires
        setup_ok(b1, layout, rules),
        setup_ok(b2, layout, rules),
    ensures
        b1 == b2,
{
    assert forall|y: int| 0 <= y < b1.height implies #[trigger] b1.cells[y] =~= b2.cells[y] by {
        assert forall|x: int| 0 <= x < b1.width implies b1.cells[y][x] == b2.cells[y][x] by {
            assert(placed(layout.tiles()[y][x], b1.at(x, y), b1.units, x, y, rules));
            assert(placed(layout.tiles()[y][x], b2.at(x, y), b2.units, x, y, rules));
            if b1.at(x, y) is Unit && b2.at(x, y) is Unit {
                let i = b1.at(x, y)->Unit_0 as int;
                let j = b2.at(x, y)->Unit_0 as int;
                if i < j {
                    assert((b1.units[i].x, b1.units[i].y) != (b1.units[j].x, b1.units[j].y));
                } else if j < i {
                    assert((b1.units[j].x, b1.units[j].y) != (b1.units[i].x, b1.units[i].y));
                }
            }
        }
    }
    assert(b1.cells =~= b2.cells);
}

/// Sum of the hit points of all units (the dead ones have none).
pub open spec fn hp_total(units: Seq<Unit>) -> int
    decreases units.len(),
{
    if units.len() == 0 {
        0
    } else {
        hp_total(units.drop_last()) + units.last().hp
    }
}

/// Number of live units of faction `f`.
pub open spec fn alive_count(units: Seq<Unit>, f: Faction) -> int
    decreases units.len(),
{
    if units.len() == 0 {
        0
    } else {
        alive_count(units.drop_last(), f) + if units.last().hp > 0 && units.last().faction == f {
            1int
        } else {
            0int
        }
    }
}

/// A battle state as plain values: the size of the map, its squares row by
/// row, and the arena of units.
pub struct Board {
    pub width: int,
    pub height: int,
    pub cells: Seq<Seq<Square>>,
    pub units: Seq<Unit>,
}

impl Board {
    pub open spec fn roster(self) -> Seq<Unit> {
        self.units
    }

    pub open spec fn in_bounds(self, x: int, y: int) -> bool {
        0 <= x < self.width && 0 <= y < self.height
    }

    pub open spec fn at(self, x: int, y: int) -> Square {
        self.cells[y][x]
    }

    pub open spec fn alive(self, id: int) -> bool {
        0 <= id < self.units.len() && self.units[id].hp > 0
    }

    /// Whether faction `f` has an enemy left.
    pub open spec fn has_enemy_of(self, f: Faction) -> bool {
        exists|id: int| self.alive(id) && (#[trigger] self.units[id]).faction != f
    }
}

/// The state of a battle: the map with its occupancy overlay, and the arena
/// of units, each addressed by its index there for the whole battle.
pub struct World {
    grid: Grid<Square>,
    width: usize,
    height: usize,
    units: Vec<Unit>,
}

impl World {
    /// The squares, row by row.
    pub closed spec fn rows(&self) -> Seq<Seq<Square>> {
        grid_rows(self.grid)
    }

    /// The arena of units, dead ones included.
    pub closed spec fn roster(&self) -> Seq<Unit> {
        self.units@
    }

    pub closed spec fn w(&self) -> int {
        self.width as int
    }

    pub closed spec fn h(&self) -> int {
        self.height as int
    }

    /// The state as plain values.
    pub open spec fn board(&self) -> Board {
        Board { width: self.w(), height: self.h(), cells: self.rows(), units: self.roster() }
    }

    /// The map is a rectangle, every live unit stands on its own square, and
    /// every occupied square holds the live unit that stands there.
    pub open spec fn wf(&self) -> bool {
        &&& self.w() > 0
        &&& self.h() > 0
        &&& self.w() * self.h() <= usize::MAX
        &&& self.rows().len() == self.h()
        &&& forall|y: int| 0 <= y < self.h() ==> (#[trigger] self.rows()[y]).len() == self.w()
        &&& forall|id: int|
            0 <= id < self.roster().len() && (#[trigger] self.roster()[id]).hp > 0 ==> {
                let u = self.roster()[id];
                &&& self.board().in_bounds(u.x as int, u.y as int)
                &&& holds(self.board().at(u.x as int, u.y as int), id)
            }
        &&& forall|x: int, y: int|
            self.board().in_bounds(x, y) && (#[trigger] self.board().at(x, y)) is Unit ==> {
                let id = self.board().at(x, y)->Unit_0 as int;
                &&& self.board().alive(id)
                &&& self.roster()[id].x == x
                &&& self.roster()[id].y == y
            }
    }

    /// Same size, and walls exactly where `other` has them.
    pub open spec fn same_terrain(&self, other: &World) -> bool {
        &&& self.w() == other.w()
        &&& self.h() == other.h()
        &&& forall|x: int, y: int|
            self.board().in_bounds(x, y) ==> ((#[trigger] self.board().at(x, y) == Square::Wall) <==> other.board().at(
                x,
                y,
            ) == Square::Wall)
    }

    /// Sets up a battle on a parsed map: one unit per `E` or `G`, each with
    /// the starting hit points and its faction's power.
    pub fn new(layout: &Layout, rules: Rules) -> (r: World)
        requires
            layout.wf(),
            rules.hit_points > 0,
        ensures
            r.wf(),
            r.w() == layout.width(),
            r.h() == layout.height(),
            forall|x: int, y: int|
                r.board().in_bounds(x, y) ==> placed(
                    layout.tiles()[y][x],
                    #[trigger] r.board().at(x, y),
                    r.roster(),
                    x,
                    y,
                    rules,
                ),
            forall|id: int| 0 <= id < r.roster().len() ==> r.board().alive(id),
            r.roster().len() > 0,
            r.roster() == spawn(layout.tiles(), rules),
            r.board() == setup_spec(*layout, rules),
    {
        let height = layout.height_of();
        let width = layout.width_of();
        let mut rows: Vec<Vec<Square>> = Vec::new();
        let mut units: Vec<Unit> = Vec::new();
        for y in 0..height
            invariant
                layout.wf(),
                rules.hit_points > 0,
                height == layout.height(),
                width == layout.width(),
                rows.len() == y,
                forall|k: int| 0 <= k < y ==> (#[trigger] rows[k]).len() == width,
                forall|k: int, i: int|
                    0 <= k < y && 0 <= i < width ==> placed(
                        layout.tiles()[k][i],
                        #[trigger] rows[k][i],
                        units@,
                        i,
                        k,
                        rules,
                    ),
                forall|id: int|
                    0 <= id < units.len() ==> {
                        let u = #[trigger] units[id];
                        &&& u.y < y
                        &&& u.x < width
                        &&& rows[u.y as int][u.x as int] == Square::Unit(id as usize)
                        &&& u.hp == rules.hit_points
                    },
                units@ == spawn_rows(layout.tiles(), rules, y as int),
        {
            let ghost before = units@;
            let row = Self::build_row(layout, y, rules, &mut units);
            assert(layout.tiles()[y as int].len() == width);
            rows.push(row);
            assert forall|k: int, i: int|
                0 <= k < y + 1 && 0 <= i < width implies placed(
                    layout.tiles()[k][i],
                    #[trigger] rows[k][i],
                    units@,
                    i,
                    k,
                    rules,
                ) by {
                if k < y {
                    assert(placed(layout.tiles()[k][i], rows[k][i], before, i, k, rules));
                    if rows[k][i] is Unit {
                        assert(units@[rows[k][i]->Unit_0 as int] == before[rows[k][i]->Unit_0 as int]);
                    }
                } else {
                    assert(rows[k] == row);
                }
            }
            assert forall|id: int| 0 <= id < units.len() implies {
                let u = #[trigger] units[id];
                &&& u.y < y + 1
                &&& u.x < width
                &&& rows[u.y as int][u.x as int] == Square::Unit(id as usize)
                &&& u.hp == rules.hit_points
            } by {
                if id < before.len() {
                    assert(units[id] == before[id]);
                }
            }
        }
        let ghost (uy, ux) = choose|y: int, x: int|
            0 <= y < layout.height() && 0 <= x < layout.width() && is_unit_tile(#[trigger] layout.tiles()[y][x]);
        assert(placed(layout.tiles()[uy][ux], rows[uy][ux], units@, ux, uy, rules));
        let grid = grid_from_rows(rows);
        let world = World { grid, width, height, units };
        assert forall|x: int, y: int| world.board().in_bounds(x, y) implies placed(
            layout.tiles()[y][x],
            #[trigger] world.board().at(x, y),
            world.roster(),
            x,
            y,
            rules,
        ) by {
            assert(world.board().at(x, y) == rows[y][x]);
        }
        assert forall|x: int, y: int|
            world.board().in_bounds(x, y) && (#[trigger] world.board().at(x, y)) is Unit implies {
                let id = world.board().at(x, y)->Unit_0 as int;
                &&& world.board().alive(id)
                &&& world.roster()[id].x == x
                &&& world.roster()[id].y == y
            } by {
            assert(world.board().at(x, y) == rows[y][x]);
            assert(placed(layout.tiles()[y][x], rows[y][x], units@, x, y, rules));
        }
        assert forall|id: int|
            0 <= id < world.roster().len() && (#[trigger] world.roster()[id]).hp > 0 implies {
                let u = world.roster()[id];
                &&& world.board().in_bounds(u.x as int, u.y as int)
                &&& world.board().at(u.x as int, u.y as int) == Square::Unit(id as usize)
            } by {
            assert(units[id] == world.roster()[id]);
        }
        proof {
            let b = world.board();
            assert(units@ == spawn(layout.tiles(), rules));
            lemma_occupancy_exact(world);
            assert forall|i: int, j: int| 0 <= i < j < b.units.len() implies (#[trigger] b.units[i].x, b.units[i].y) != (
                #[trigger] b.units[j].x,
                b.units[j].y,
            ) by {
                assert(b.alive(i) && b.alive(j));
            }
            assert(setup_ok(b, *layout, rules));
            lemma_setup_unique(b, setup_spec(*layout, rules), *layout, rules);
        }
        world
    }

    /// The squares of row `y`, adding a unit to the arena for each `E` or `G`.
    fn build_row(layout: &Layout, y: usize, rules: Rules, units: &mut Vec<Unit>) -> (row: Vec<
        Square,
    >)
        requires
            layout.wf(),
            y < layout.height(),
            rules.hit_points > 0,
        ensures
            row.len() == layout.width(),
            final(units).len() >= old(units).len(),
            forall|id: int| 0 <= id < old(units).len() ==> final(units)[id] == old(units)[id],
            forall|i: int|
                0 <= i < layout.width() ==> placed(
                    layout.tiles()[y as int][i],
                    #[trigger] row[i],
                    final(units)@,
                    i,
                    y as int,
                    rules,
                ),
            forall|id: int|
                old(units).len() <= id < final(units).len() ==> {
                    let u = #[trigger] final(units)[id];
                    &&& u.y == y
                    &&& u.x < layout.width()
                    &&& row[u.x as int] == Square::Unit(id as usize)
                    &&& u.hp == rules.hit_points
                },
            final(units)@ == old(units)@ + spawn_row(layout.tiles(), rules, y as int, layout.width()),
    {
        let width = layout.width_of();
        let mut row: Vec<Square> = Vec::new();
        let ghost start = units@;
        for x in 0..width
            invariant
                layout.wf(),
                y < layout.height(),
                width == layout.width(),
                row.len() == x,
                units.len() >= start.len(),
                forall|id: int| 0 <= id < start.len() ==> units[id] == start[id],
                forall|i: int|
                    0 <= i < x ==> placed(
                        layout.tiles()[y as int][i],
                        #[trigger] row[i],
                        units@,
                        i,
                        y as int,
                        rules,
                    ),
                forall|id: int|
                    start.len() <= id < units.len() ==> {
                        let u = #[trigger] units[id];
                        &&& u.y == y
                        &&& u.x < x
                        &&& row[u.x as int] == Square::Unit(id as usize)
                        &&& u.hp == rules.hit_points
                    },
                units@ == start + spawn_row(layout.tiles(), rules, y as int, x as int),
        {
            let ghost before = units@;
            let t = layout.tile(x, y);
            let s = match t {
                Tile::Wall => Square::Wall,
                Tile::Open => Square::Open,
                Tile::Elf => {
                    units.push(
                        Unit { faction: Faction::Elf, x, y, hp: rules.hit_points, power: rules.elf_power },
                    );
                    Square::Unit(units.len() - 1)
                },
                Tile::Goblin => {
                    units.push(
                        Unit {
                            faction: Faction::Goblin,
                            x,
                            y,
                            hp: rules.hit_points,
                            power: rules.goblin_power,
                        },
                    );
                    Square::Unit(units.len() - 1)
                },
            };
            row.push(s);
            assert(units@ =~= start + spawn_row(layout.tiles(), rules, y as int, x + 1));
            assert forall|i: int| 0 <= i < x + 1 implies placed(
                layout.tiles()[y as int][i],
                #[trigger] row[i],
                units@,
                i,
                y as int,
                rules,
            ) by {
                if i < x {
                    assert(placed(layout.tiles()[y as int][i], row[i], before, i, y as int, rules));
                    if row[i] is Unit {
                        assert(units@[row[i]->Unit_0 as int] == before[row[i]->Unit_0 as int]);
                    }
                }
            }
            assert forall|id: int| start.len() <= id < units.len() implies {
                let u = #[trigger] units[id];
                &&& u.y == y
                &&& u.x < x + 1
                &&& row[u.x as int] == Square::Unit(id as usize)
                &&& u.hp == rules.hit_points
            } by {
                if id < before.len() {
                    assert(units[id] == before[id]);
                }
            }
        }
        row
    }

    pub fn width(&self) -> (n: usize)
        ensures
            n == self.w(),
    {
        self.width
    }

    pub fn height(&self) -> (n: usize)
        ensures
            n == self.h(),
    {
        self.height
    }

    /// What stands in column `x` of row `y`.
    pub fn square_at(&self, x: usize, y: usize) -> (s: Square)
        requires
            self.wf(),
            self.board().in_bounds(x as int, y as int),
        ensures
            s == self.board().at(x as int, y as int),
    {
        grid_at(&self.grid, x, y)
    }

    /// Whether the square in column `x` of row `y` is a wall.
    pub fn is_wall(&self, x: usize, y: usize) -> (r: bool)
        requires
            self.wf(),
            self.board().in_bounds(x as int, y as int),
        ensures
            r == (self.board().at(x as int, y as int) == Square::Wall),
    {
        self.square_at(x, y) == Square::Wall
    }

    /// The id of the unit standing in column `x` of row `y`, if any.
    pub fn occupant_at(&self, x: usize, y: usize) -> (r: Option<usize>)
        requires
            self.wf(),
            self.board().in_bounds(x as int, y as int),
        ensures
            r == (match self.board().at(x as int, y as int) {
                Square::Unit(id) => Some(id),
                _ => None,
            }),
    {
        match self.square_at(x, y) {
            Square::Unit(id) => Some(id),
            _ => None,
        }
    }

    /// Number of units in the arena, dead ones included.
    pub fn unit_count(&self) -> (n: usize)
        ensures
            n == self.roster().len(),
    {
        self.units.len()
    }

    pub fn unit(&self, id: usize) -> (u: Unit)
        requires
            id < self.roster().len(),
        ensures
            u == self.roster()[id as int],
    {
        self.units[id]
    }

    /// Whether any live unit is an enemy of faction `f`.
    pub fn enemies_exist(&self, f: Faction) -> (r: bool)
        ensures
            r == self.board().has_enemy_of(f),
    {
        for i in 0..self.units.len()
            invariant
                forall|id: int| 0 <= id < i ==> !(self.board().alive(id) && (#[trigger] self.roster()[id]).faction != f),
        {
            if self.units[i].hp > 0 && self.units[i].faction != f {
                assert(self.board().alive(i as int) && self.roster()[i as int].faction != f);
                return true;
            }
        }
        false
    }

    /// Number of live units of faction `f`.
    pub fn count_alive(&self, f: Faction) -> (n: usize)
        ensures
            n == alive_count(self.roster(), f),
    {
        let mut n: usize = 0;
        for i in 0..self.units.len()
            invariant
                n == alive_count(self.units@.subrange(0, i as int), f),
                n <= i,
        {
            assert(self.units@.subrange(0, i + 1).drop_last() == self.units@.subrange(0, i as int));
            if self.units[i].hp > 0 && self.units[i].faction == f {
                n = n + 1;
            }
        }
        assert(self.units@.subrange(0, self.units.len() as int) == self.units@);
        n
    }

    /// A unit after taking `amount` damage.
pub open spec fn hit(u: Unit, amount: u32) -> Unit {
    Unit { hp: if u.hp <= amount { 0 } else { (u.hp - amount) as u32 }, ..u }
}

/// The rows with the square in column `x` of row `y` set to `s`.
pub open spec fn put(rows: Seq<Seq<Square>>, x: int, y: int, s: Square) -> Seq<Seq<Square>> {
    rows.update(y, rows[y].update(x, s))
}

/// Square `s` holds the unit with id `id`.
pub open spec fn holds(s: Square, id: int) -> bool {
    s is Unit && s->Unit_0 == id
}

/// Sum of the hit points of the live units.
    pub fn hp_sum(&self) -> (r: u128)
        ensures
            r == hp_total(self.roster()),
    {
        let mut sum: u128 = 0;
        for i in 0..self.units.len()
            invariant
                sum == hp_total(self.units@.subrange(0, i as int)),
                sum <= i * 0xffff_ffffu128,
                i <= usize::MAX,
        {
            assert(self.units@.subrange(0, i + 1).drop_last() == self.units@.subrange(0, i as int));
            assert(sum + self.units[i as int].hp <= (i + 1) * 0xffff_ffffu128) by (nonlinear_arith)
                requires
                    sum <= i * 0xffff_ffffu128,
                    self.units[i as int].hp <= 0xffff_ffffu128,
            ;
            sum = sum + self.units[i].hp as u128;
        }
        assert(self.units@.subrange(0, self.units.len() as int) == self.units@);
        sum
    }

    /// Moves unit `id` to the free square in column `x` of row `y`: its old
    /// square becomes free, the new one holds it.
    pub fn move_unit(&mut self, id: usize, x: usize, y: usize)
        requires
            old(self).wf(),
            old(self).board().alive(id as int),
            old(self).board().in_bounds(x as int, y as int),
            old(self).board().at(x as int, y as int) == Square::Open,
        ensures
            final(self).wf(),
            final(self).same_terrain(old(self)),
            final(self).roster() == old(self).roster().update(
                id as int,
                Unit { x, y, ..old(self).roster()[id as int] },
            ),
            final(self).rows() == ({
                let u = old(self).roster()[id as int];
                put(put(old(self).rows(), u.x as int, u.y as int, Square::Open), x as int, y as int, Square::Unit(id))
            }),
    {
        let ghost w0 = *self;
        let u = self.units[id];
        grid_put(&mut self.grid, u.x, u.y, Square::Open);
        grid_put(&mut self.grid, x, y, Square::Unit(id));
        self.units.set(id, Unit { x, y, ..u });
        assert forall|xx: int, yy: int| self.board().in_bounds(xx, yy) implies ((#[trigger] self.board().at(xx, yy)
            == Square::Wall) <==> w0.board().at(xx, yy) == Square::Wall) by {}
        assert forall|yy: int| 0 <= yy < self.h() implies (#[trigger] self.rows()[yy]).len() == self.w() by {
            assert(w0.rows()[yy].len() == w0.w());
        }
        assert forall|k: int|
            0 <= k < self.roster().len() && (#[trigger] self.roster()[k]).hp > 0 implies {
                let v = self.roster()[k];
                &&& self.board().in_bounds(v.x as int, v.y as int)
                &&& holds(self.board().at(v.x as int, v.y as int), k)
            } by {
            assert(w0.board().at(u.x as int, u.y as int) == Square::Unit(id));
            if k != id {
                assert(w0.roster()[k] == self.roster()[k]);
                assert(holds(w0.board().at(w0.roster()[k].x as int, w0.roster()[k].y as int), k));
            }
        }
        assert forall|xx: int, yy: int|
            self.board().in_bounds(xx, yy) && (#[trigger] self.board().at(xx, yy)) is Unit implies {
                let k = self.board().at(xx, yy)->Unit_0 as int;
                &&& self.board().alive(k)
                &&& self.roster()[k].x == xx
                &&& self.roster()[k].y == yy
            } by {
            if !(xx == x && yy == y) {
                assert(w0.board().at(xx, yy) is Unit);
            }
        }
    }

    /// Takes `amount` hit points from unit `id`, down to zero at most; a unit
    /// left with none is dead and its square is free from then on.
    pub fn damage(&mut self, id: usize, amount: u32)
        requires
            old(self).wf(),
            old(self).board().alive(id as int),
        ensures
            final(self).wf(),
            final(self).same_terrain(old(self)),
            final(self).roster() == old(self).roster().update(id as int, hit(old(self).roster()[id as int], amount)),
            final(self).rows() == ({
                let u = old(self).roster()[id as int];
                if u.hp <= amount {
                    put(old(self).rows(), u.x as int, u.y as int, Square::Open)
                } else {
                    old(self).rows()
                }
            }),
    {
        let ghost w0 = *self;
        let u = self.units[id];
        if u.hp <= amount {
            grid_put(&mut self.grid, u.x, u.y, Square::Open);
            self.units.set(id, Unit { hp: 0, ..u });
        } else {
            self.units.set(id, Unit { hp: u.hp - amount, ..u });
        }
        assert forall|xx: int, yy: int| self.board().in_bounds(xx, yy) implies ((#[trigger] self.board().at(xx, yy)
            == Square::Wall) <==> w0.board().at(xx, yy) == Square::Wall) by {}
        assert forall|yy: int| 0 <= yy < self.h() implies (#[trigger] self.rows()[yy]).len() == self.w() by {
            assert(w0.rows()[yy].len() == w0.w());
        }
        assert forall|k: int|
            0 <= k < self.roster().len() && (#[trigger] self.roster()[k]).hp > 0 implies {
                let v = self.roster()[k];
                &&& self.board().in_bounds(v.x as int, v.y as int)
                &&& holds(self.board().at(v.x as int, v.y as int), k)
            } by {
            assert(w0.board().at(u.x as int, u.y as int) == Square::Unit(id));
            assert(w0.roster()[k].hp > 0);
            assert(holds(w0.board().at(w0.roster()[k].x as int, w0.roster()[k].y as int), k));
        }
        assert forall|xx: int, yy: int|
            self.board().in_bounds(xx, yy) && (#[trigger] self.board().at(xx, yy)) is Unit implies {
                let k = self.board().at(xx, yy)->Unit_0 as int;
                &&& self.board().alive(k)
                &&& self.roster()[k].x == xx
                &&& self.roster()[k].y == yy
            } by {
            assert(w0.board().at(xx, yy) is Unit);
        }
    }
}


/// Occupancy consistency: in a well-formed world a square holds a unit
/// exactly when a live unit stands on it, no two live units share a square,
/// and no live unit stands on a wall. Every operation that changes a world
/// keeps it well-formed.
pub proof fn lemma_occupancy_exact(w: World)
    requires
        w.wf(),
    ensures
        forall|x: int, y: int|
            w.board().in_bounds(x, y) ==> ((#[trigger] w.board().at(x, y) is Unit) <==> exists|id: int|
                w.board().alive(id) && w.roster()[id].x == x && w.roster()[id].y == y),
        forall|i: int, j: int|
            #[trigger] w.board().alive(i) && #[trigger] w.board().alive(j) && i != j ==> (w.roster()[i].x, w.roster()[i].y)
                != (w.roster()[j].x, w.roster()[j].y),
        forall|i: int|
            #[trigger] w.board().alive(i) ==> w.board().at(w.roster()[i].x as int, w.roster()[i].y as int) != Square::Wall,
{
    assert forall|x: int, y: int| w.board().in_bounds(x, y) implies ((#[trigger] w.board().at(x, y) is Unit) <==> exists|id: int|
        w.board().alive(id) && w.roster()[id].x == x && w.roster()[id].y == y) by {
        if w.board().at(x, y) is Unit {
            let id = w.board().at(x, y)->Unit_0 as int;
            assert(w.board().alive(id) && w.roster()[id].x == x && w.roster()[id].y == y);
        }
        if exists|id: int| w.board().alive(id) && w.roster()[id].x == x && w.roster()[id].y == y {
            let id = choose|id: int| w.board().alive(id) && w.roster()[id].x == x && w.roster()[id].y == y;
            assert(w.roster()[id].hp > 0);
        }
    }
    assert forall|i: int, j: int|
        #[trigger] w.board().alive(i) && #[trigger] w.board().alive(j) && i != j implies (w.roster()[i].x, w.roster()[i].y)
            != (w.roster()[j].x, w.roster()[j].y) by {
        assert(w.roster()[i].hp > 0);
        assert(w.roster()[j].hp > 0);
    }
    assert forall|i: int| #[trigger] w.board().alive(i) implies w.board().at(w.roster()[i].x as int, w.roster()[i].y as int)
        != Square::Wall by {
        assert(w.roster()[i].hp > 0);
    }
}
} // verus!
