use aoc2018::battle::{calibrate, Ending, RoundEnd, Turn};
use aoc2018::path::Search;
use aoc2018::world::{parse_map, Faction, Layout, MapError, Rules, Square, Tile, World};

fn lines(map: &[&str]) -> Vec<Vec<char>> {
    map.iter().map(|l| l.chars().collect()).collect()
}

fn rules() -> Rules {
    Rules { hit_points: 200, elf_power: 3, goblin_power: 3, max_rounds: 10_000 }
}

fn layout(map: &[&str]) -> Layout {
    parse_map(&lines(map)).unwrap()
}

fn battle(map: &[&str]) -> (Ending, u32, u128, u128) {
    let mut world = World::new(&layout(map), rules());
    let out = world.run(rules().max_rounds, false);
    (out.ending, out.rounds, out.hp_sum, out.value())
}

const CLASSIC: [&str; 7] = [
    "#######", "#.G...#", "#...EG#", "#.#.#G#", "#..G#E#", "#.....#", "#######",
];

#[test]
fn classic_example_outcome() {
    assert_eq!(battle(&CLASSIC), (Ending::Won(Faction::Goblin), 47, 590, 27730));
}

#[test]
fn further_examples_outcomes() {
    let a = ["#######", "#G..#E#", "#E#E.E#", "#G.##.#", "#...#E#", "#...E.#", "#######"];
    assert_eq!(battle(&a), (Ending::Won(Faction::Elf), 37, 982, 36334));
    let b = ["#######", "#E..EG#", "#.#G.E#", "#E.##E#", "#G..#.#", "#..E#.#", "#######"];
    assert_eq!(battle(&b), (Ending::Won(Faction::Elf), 46, 859, 39514));
    let c = ["#######", "#E.G#.#", "#.#G..#", "#G.#.G#", "#G..#.#", "#...E.#", "#######"];
    assert_eq!(battle(&c), (Ending::Won(Faction::Goblin), 35, 793, 27755));
    let d = ["#######", "#.E...#", "#.#..G#", "#.###.#", "#E#G#G#", "#...#G#", "#######"];
    assert_eq!(battle(&d), (Ending::Won(Faction::Goblin), 54, 536, 28944));
    let e = [
        "#########", "#G......#", "#.E.#...#", "#..##..G#", "#...##..#", "#...#...#", "#.G...G.#",
        "#.....G.#", "#########",
    ];
    assert_eq!(battle(&e), (Ending::Won(Faction::Goblin), 20, 937, 18740));
}

#[test]
fn single_unit_ends_at_round_zero() {
    let mut world = World::new(&layout(&["#####", "#.E.#", "#####"]), rules());
    let out = world.run(100, false);
    assert_eq!(out.ending, Ending::Won(Faction::Elf));
    assert_eq!(out.rounds, 0);
    assert_eq!(out.hp_sum, 200);
    assert_eq!(out.value(), 0);
    assert_eq!(world.unit(0).hp, 200);
    assert_eq!(world.unit(0).x, 2);
}

#[test]
fn calibration_on_classic_example() {
    let (power, out) = calibrate(&layout(&CLASSIC), rules()).unwrap();
    assert_eq!(power, 15);
    assert_eq!(out.ending, Ending::Won(Faction::Elf));
    assert_eq!((out.rounds, out.hp_sum, out.value()), (29, 172, 4988));
    let again = calibrate(&layout(&CLASSIC), rules()).unwrap();
    assert_eq!(again, (power, out));
}

#[test]
fn calibration_on_further_examples() {
    let b = ["#######", "#E..EG#", "#.#G.E#", "#E.##E#", "#G..#.#", "#..E#.#", "#######"];
    let (p, out) = calibrate(&layout(&b), rules()).unwrap();
    assert_eq!((p, out.value()), (4, 31284));
    let c = ["#######", "#E.G#.#", "#.#G..#", "#G.#.G#", "#G..#.#", "#...E.#", "#######"];
    let (p, out) = calibrate(&layout(&c), rules()).unwrap();
    assert_eq!((p, out.value()), (15, 3478));
    let d = ["#######", "#.E...#", "#.#..G#", "#.###.#", "#E#G#G#", "#...#G#", "#######"];
    let (p, out) = calibrate(&layout(&d), rules()).unwrap();
    assert_eq!((p, out.value()), (12, 6474));
    let e = [
        "#########", "#G......#", "#.E.#...#", "#..##..G#", "#...##..#", "#...#...#", "#.G...G.#",
        "#.....G.#", "#########",
    ];
    let (p, out) = calibrate(&layout(&e), rules()).unwrap();
    assert_eq!((p, out.value()), (34, 1140));
}

#[test]
fn calibration_fails_when_no_power_suffices() {
    // A lone elf between two goblins with enough hit points to outlast it.
    let r = Rules { hit_points: 5, elf_power: 3, goblin_power: 3, max_rounds: 100 };
    let l = layout(&["#####", "#GEG#", "#####"]);
    // With power 5 the elf kills one goblin but the other hits it twice first.
    let res = calibrate(&l, r);
    assert!(res.is_none());
}

#[test]
fn determinism_same_input_same_outcome() {
    let first = battle(&CLASSIC);
    let second = battle(&CLASSIC);
    assert_eq!(first, second);
}

#[test]
fn monotonic_power_on_classic_example() {
    // Elf losses never grow as the elves' power grows, on this map.
    let mut last_alive = 0usize;
    for power in 3..=40u32 {
        let r = Rules { elf_power: power, ..rules() };
        let mut world = World::new(&layout(&CLASSIC), r);
        world.run(r.max_rounds, false);
        let alive = world.count_alive(Faction::Elf);
        assert!(alive >= last_alive, "power {}", power);
        last_alive = alive;
    }
    assert_eq!(last_alive, 2);
}

#[test]
fn round_not_counted_when_enemies_gone_midround() {
    // The goblin acts first, then the first elf kills it; the second elf
    // finds no enemy, so the round is incomplete.
    let r = Rules { hit_points: 200, elf_power: 200, goblin_power: 3, max_rounds: 10 };
    let mut world = World::new(&layout(&["######", "#GEE.#", "######"]), r);
    assert_eq!(world.play_round(false), RoundEnd::Ended);
    let mut world = World::new(&layout(&["######", "#GEE.#", "######"]), r);
    let out = world.run(10, false);
    assert_eq!(out.ending, Ending::Won(Faction::Elf));
    assert_eq!(out.rounds, 0);
    assert_eq!(out.hp_sum, 397);
}

#[test]
fn round_counted_when_last_enemy_dies_at_last_turn() {
    let r = Rules { hit_points: 200, elf_power: 200, goblin_power: 3, max_rounds: 10 };
    let mut world = World::new(&layout(&["#####", "#GE.#", "#####"]), r);
    let out = world.run(10, false);
    assert_eq!((out.ending, out.rounds, out.hp_sum), (Ending::Won(Faction::Elf), 1, 197));
}

#[test]
fn stalled_when_factions_cannot_meet() {
    let mut world = World::new(&layout(&["#######", "#E.#.G#", "#######"]), rules());
    let out = world.run(5, false);
    assert_eq!(out.ending, Ending::Stalled);
    assert_eq!(out.rounds, 5);
    assert_eq!(out.hp_sum, 400);
}

#[test]
fn elf_loss_stops_the_battle() {
    let r = Rules { hit_points: 3, elf_power: 1, goblin_power: 3, max_rounds: 10 };
    let mut world = World::new(&layout(&["####", "#GE#", "####"]), r);
    let out = world.run(10, true);
    assert_eq!(out.ending, Ending::ElfDied);
}

#[test]
fn parse_errors() {
    assert_eq!(parse_map(&lines(&[])).err(), Some(MapError::Empty));
    assert_eq!(parse_map(&lines(&["", "#"])).err(), Some(MapError::Empty));
    assert_eq!(parse_map(&lines(&["###", "#E"])).err(), Some(MapError::Ragged));
    assert_eq!(parse_map(&lines(&["###", "#X#"])).err(), Some(MapError::UnknownSquare('X')));
    assert_eq!(parse_map(&lines(&["###", "#.#"])).err(), Some(MapError::NoUnits));
    assert_eq!(parse_map(&lines(&["#Y#", "#X#"])).err(), Some(MapError::UnknownSquare('Y')));
    assert_eq!(parse_map(&lines(&["#E#", "#XY"])).err(), Some(MapError::UnknownSquare('X')));
    assert_eq!(parse_map(&lines(&["#E#", "#X"])).err(), Some(MapError::Ragged));
}

#[test]
fn parse_reads_tiles() {
    let l = layout(&["####", "#EG#", "#..#", "####"]);
    assert_eq!(l.height_of(), 4);
    assert_eq!(l.width_of(), 4);
    assert_eq!(l.tile(0, 0), Tile::Wall);
    assert_eq!(l.tile(1, 1), Tile::Elf);
    assert_eq!(l.tile(2, 1), Tile::Goblin);
    assert_eq!(l.tile(1, 2), Tile::Open);
}

#[test]
fn world_setup_and_occupancy() {
    let world = World::new(&layout(&["####", "#EG#", "#..#", "####"]), rules());
    assert_eq!(world.unit_count(), 2);
    assert_eq!(world.occupant_at(1, 1), Some(0));
    assert_eq!(world.occupant_at(2, 1), Some(1));
    assert_eq!(world.occupant_at(1, 2), None);
    assert!(world.is_wall(0, 0));
    assert!(!world.is_wall(1, 2));
    assert_eq!(world.square_at(2, 1), Square::Unit(1));
    assert_eq!(world.unit(1).faction, Faction::Goblin);
    assert_eq!(world.unit(1).power, 3);
    assert!(world.enemies_exist(Faction::Elf));
    assert_eq!(world.count_alive(Faction::Elf), 1);
    assert_eq!(world.hp_sum(), 400);
}

#[test]
fn move_and_damage_keep_occupancy() {
    let mut world = World::new(&layout(&["#####", "#E.G#", "#####"]), rules());
    world.move_unit(0, 2, 1);
    assert_eq!(world.occupant_at(1, 1), None);
    assert_eq!(world.occupant_at(2, 1), Some(0));
    assert_eq!((world.unit(0).x, world.unit(0).y), (2, 1));
    world.damage(1, 150);
    assert_eq!(world.unit(1).hp, 50);
    assert_eq!(world.occupant_at(3, 1), Some(1));
    world.damage(1, 60);
    assert_eq!(world.unit(1).hp, 0);
    assert_eq!(world.occupant_at(3, 1), None);
    assert!(!world.enemies_exist(Faction::Elf));
}

#[test]
fn target_search_picks_reading_order_square() {
    // The classic movement example: the elf steps right towards the square
    // above-left... of the nearest goblins, first in reading order.
    let world = World::new(
        &layout(&["#######", "#E..G.#", "#...#.#", "#.G.#G#", "#######"]),
        rules(),
    );
    assert_eq!(world.find_targets(0), Search::Found { dist: 2, tx: 3, ty: 1, sx: 2, sy: 1 });
    let world2 = World::new(&layout(&["#######", "#.E...#", "#.....#", "#...G.#", "#######"]), rules());
    assert_eq!(world2.find_targets(0), Search::Found { dist: 3, tx: 4, ty: 2, sx: 3, sy: 1 });
}

#[test]
fn target_search_no_enemies_and_unreachable() {
    let world = World::new(&layout(&["#####", "#E.E#", "#####"]), rules());
    assert_eq!(world.find_targets(0), Search::NoEnemies);
    let world = World::new(&layout(&["######", "#E#.G#", "######"]), rules());
    assert_eq!(world.find_targets(0), Search::Unreachable);
    let world = World::new(&layout(&["####", "#EG#", "####"]), rules());
    assert_eq!(world.find_targets(0), Search::Found { dist: 0, tx: 1, ty: 1, sx: 1, sy: 1 });
}

#[test]
fn target_search_is_fresh_after_a_move() {
    let mut world = World::new(&layout(&["######", "#E..G#", "######"]), rules());
    assert_eq!(world.find_targets(0), Search::Found { dist: 2, tx: 3, ty: 1, sx: 2, sy: 1 });
    world.move_unit(0, 2, 1);
    assert_eq!(world.find_targets(0), Search::Found { dist: 1, tx: 3, ty: 1, sx: 3, sy: 1 });
}

#[test]
fn attack_prefers_fewest_hit_points_then_reading_order() {
    let mut world = World::new(&layout(&["#####", "#.G.#", "#GEG#", "#.G.#", "#####"]), rules());
    // Ids in reading order: 0 north goblin, 1 west goblin, 2 elf, 3 east goblin, 4 south goblin.
    world.damage(3, 100);
    world.damage(4, 100);
    assert_eq!(world.attack(2), Some(3));
    assert_eq!(world.unit(3).hp, 97);
    let mut w2 = World::new(&layout(&["#####", "#.G.#", "#GEG#", "#.G.#", "#####"]), rules());
    assert_eq!(w2.attack(2), Some(0));
    let mut w3 = World::new(&layout(&["#####", "#.E.#", "#...#", "#####"]), rules());
    assert_eq!(w3.attack(0), None);
}

#[test]
fn take_turn_moves_then_attacks() {
    let mut world = World::new(&layout(&["#####", "#E.G#", "#####"]), rules());
    assert_eq!(world.take_turn(0), Turn::Acted { attacked: Some(1) });
    assert_eq!(world.unit(0).x, 2);
    assert_eq!(world.unit(1).hp, 197);
    let mut lone = World::new(&layout(&["####", "#E.#", "####"]), rules());
    assert_eq!(lone.take_turn(0), Turn::NoEnemies);
}

#[test]
fn turn_order_is_reading_order() {
    let mut world = World::new(&layout(&["#####", "#G.E#", "#E.G#", "#####"]), rules());
    assert_eq!(world.turn_order(), vec![0, 1, 2, 3]);
    world.move_unit(0, 2, 1);
    world.move_unit(2, 2, 2);
    assert_eq!(world.turn_order(), vec![0, 1, 2, 3]);
    world.move_unit(1, 1, 1);
    assert_eq!(world.turn_order(), vec![1, 0, 2, 3]);
}
