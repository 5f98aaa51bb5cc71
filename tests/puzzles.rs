use std::collections::HashMap;

use aoc2018::cave::{neighbors, prio, transition, Equip, Type};
use aoc2018::coords::{dist, manhattan_dist};
use aoc2018::device::{Insn, VM as IpVM};
use aoc2018::fuel::power;
use aoc2018::guards::SleepMinutes;
use aoc2018::lumber::{evaluate, evolve, neighbor_count, State};
use aoc2018::opcodes::{Op, VM};
use aoc2018::plants::sum_pots;
use aoc2018::polymer::{reacts, reduce};

#[test]
fn polymer_reactions() {
    assert!(reacts('a', 'A'));
    assert!(reacts('B', 'b'));
    assert!(!reacts('a', 'a'));
    assert!(!reacts('a', 'B'));
    assert_eq!(reduce("dabAcCaCBAcCcaDA", None), 10);
    assert_eq!(reduce("aA", None), 0);
    assert_eq!(reduce("abBA", None), 0);
    assert_eq!(reduce("abAB", None), 4);
    assert_eq!(reduce("", None), 0);
}

#[test]
fn polymer_with_a_type_removed() {
    assert_eq!(reduce("dabAcCaCBAcCcaDA", Some('a')), 6);
    assert_eq!(reduce("dabAcCaCBAcCcaDA", Some('b')), 8);
    assert_eq!(reduce("dabAcCaCBAcCcaDA", Some('c')), 4);
    assert_eq!(reduce("dabAcCaCBAcCcaDA", Some('d')), 6);
}

#[test]
fn distances() {
    assert_eq!(manhattan_dist((1, 1), (8, 3)), 9);
    assert_eq!(manhattan_dist((-4, 2), (3, -5)), 14);
    assert_eq!(dist([0, 0, 0, 0], [3, 0, 0, 0]), 3);
    assert_eq!(dist([0, 0, 0, 0], [-1, 2, -3, 4]), 10);
}

#[test]
fn fuel_cell_power() {
    assert_eq!(power(3, 5, 8), 4);
    assert_eq!(power(122, 79, 57), -5);
    assert_eq!(power(217, 196, 39), 0);
    assert_eq!(power(101, 153, 71), 4);
    assert_eq!(power(1, 1, -100_000), -13);
}

#[test]
fn pot_sums() {
    let state: Vec<bool> = "#..#.#..##......###...###".chars().map(|c| c == '#').collect();
    assert_eq!(sum_pots(&state, 0), 145);
    assert_eq!(sum_pots(&state, -3), 145 - 3 * 11);
    assert_eq!(sum_pots(&[], 5), 0);
}

#[test]
fn cave_regions_and_moves() {
    assert_eq!(Type::new(510), Type::Rocky);
    assert_eq!(Type::new(17317), Type::Wet);
    assert_eq!(Type::new(8415), Type::Rocky);
    assert_eq!(Type::new(20183 + 2), Type::Narrow);
    assert_eq!(transition(Equip::Lamp, Type::Rocky, Type::Rocky), Equip::Lamp);
    assert_eq!(transition(Equip::Lamp, Type::Rocky, Type::Wet), Equip::Gear);
    assert_eq!(transition(Equip::Gear, Type::Narrow, Type::Rocky), Equip::Lamp);
    assert_eq!(transition(Equip::Gear, Type::Wet, Type::Narrow), Equip::Nothing);
    assert_eq!(prio(0, (0, 0, Equip::Lamp), (10, 10, Equip::Lamp)), u32::MAX - 20);
    assert_eq!(prio(7, (5, 2, Equip::Gear), (1, 4, Equip::Lamp)), u32::MAX - 13);
    let risk = vec![vec![Type::Rocky, Type::Wet], vec![Type::Narrow, Type::Rocky]];
    assert_eq!(
        neighbors(&risk, (0, 0, Equip::Lamp)),
        vec![(1, 0, Equip::Lamp), (0, 1, Equip::Gear)]
    );
    assert_eq!(
        neighbors(&risk, (1, 1, Equip::Gear)),
        vec![(0, 1, Equip::Gear), (1, 0, Equip::Lamp)]
    );
}

#[test]
fn opcode_instructions() {
    assert_eq!(VM::new([3, 2, 1, 1]).exec_insn(Op::Mulr, [9, 2, 1, 2]), [3, 2, 2, 1]);
    assert_eq!(VM::new([3, 2, 1, 1]).exec_insn(Op::Addi, [9, 2, 1, 2]), [3, 2, 2, 1]);
    assert_eq!(VM::new([3, 2, 1, 1]).exec_insn(Op::Seti, [9, 2, 1, 2]), [3, 2, 2, 1]);
    assert_eq!(VM::new([3, 2, 1, 1]).exec_insn(Op::Addr, [9, 2, 1, 2]), [3, 2, 3, 1]);
    assert_eq!(VM::new([5, 3, 0, 0]).exec_insn(Op::Banr, [0, 0, 1, 3]), [5, 3, 0, 1]);
    assert_eq!(VM::new([5, 3, 0, 0]).exec_insn(Op::Borr, [0, 0, 1, 3]), [5, 3, 0, 7]);
    assert_eq!(VM::new([5, 3, 0, 0]).exec_insn(Op::Gtrr, [0, 0, 1, 3]), [5, 3, 0, 1]);
    assert_eq!(VM::new([5, 3, 0, 0]).exec_insn(Op::Eqri, [0, 1, 3, 2]), [5, 3, 1, 0]);
    assert_eq!(VM::new([u32::MAX, 2, 0, 0]).exec_insn(Op::Addr, [0, 0, 1, 3]), [u32::MAX, 2, 0, 1]);
}

#[test]
fn opcode_raw_and_program() {
    let mut vm = VM::new([1, 2, 3, 4]);
    vm.exec_raw([0, 7, 2, 0], true, false, |a, b| a * 10 + b);
    assert_eq!(vm.regs, [73, 2, 3, 4]);
    let mut table = HashMap::new();
    table.insert(0u32, Op::Seti);
    table.insert(1u32, Op::Addr);
    table.insert(2u32, Op::Muli);
    let prog = vec![[0, 5, 0, 0], [0, 7, 0, 1], [1, 0, 1, 2], [2, 2, 3, 3]];
    assert_eq!(VM::new([0; 4]).run(prog, &table), [5, 7, 12, 36]);
}

#[test]
fn sleep_minutes() {
    let mut counts = [0u32; 60];
    counts[24] = 2;
    counts[5] = 1;
    counts[30] = 1;
    let s = SleepMinutes(counts);
    assert_eq!(s.max_minute(), (24, 2));
    assert_eq!(s.total(), 4);
    counts[50] = 2;
    let s = SleepMinutes(counts);
    assert_eq!(s.max_minute(), (50, 2));
    assert_eq!(SleepMinutes([0; 60]).max_minute(), (59, 0));
    assert_eq!(SleepMinutes([0; 60]).total(), 0);
}

fn area(rows: &[&str]) -> Vec<Vec<State>> {
    rows.iter()
        .map(|l| {
            l.chars()
                .map(|c| match c {
                    '.' => State::Open,
                    '|' => State::Wood,
                    _ => State::Yard,
                })
                .collect()
        })
        .collect()
}

#[test]
fn lumber_area_after_ten_minutes() {
    let mut grid = area(&[
        ".#.#...|#.", ".....#|##|", ".|..|...#.", "..|#.....#", "#.#|||#|#|", "...#.||...",
        ".|....|...", "||...#|.#|", "|.||||..|.", "...#.|..|.",
    ]);
    for _ in 0..10 {
        grid = evolve(&grid);
    }
    assert_eq!(evaluate(&grid), 1147);
}

#[test]
fn lumber_neighbours_and_one_step() {
    let grid = area(&["|||", "|.#", "##."]);
    assert_eq!(neighbor_count(&grid, (1, 1), State::Wood), 4);
    assert_eq!(neighbor_count(&grid, (1, 1), State::Yard), 3);
    assert_eq!(neighbor_count(&grid, (0, 0), State::Wood), 2);
    assert_eq!(neighbor_count(&grid, (2, 2), State::Yard), 2);
    let next = evolve(&grid);
    assert_eq!(next[1][1], State::Wood);
    assert_eq!(next[1][2], State::Yard);
    assert_eq!(next[2][2], State::Open);
    assert_eq!(next[0][0], State::Wood);
    assert_eq!(evaluate(&grid), 4 * 3);
}

fn example_program() -> Vec<Insn> {
    vec![
        Insn { op: Op::Seti, data: [5, 0, 1] },
        Insn { op: Op::Seti, data: [6, 0, 2] },
        Insn { op: Op::Addi, data: [0, 1, 0] },
        Insn { op: Op::Addr, data: [1, 2, 3] },
        Insn { op: Op::Setr, data: [1, 0, 0] },
        Insn { op: Op::Seti, data: [8, 0, 4] },
        Insn { op: Op::Seti, data: [9, 0, 5] },
    ]
}

#[test]
fn ip_bound_machine_runs_example() {
    let mut vm = IpVM::new(example_program(), 0, 0, [0; 6]);
    assert_eq!(vm.run(100), [7, 5, 6, 0, 0, 9]);
    assert_eq!(vm.reg(5), 9);
    assert_eq!(vm.reg(1), 5);
}

#[test]
fn ip_bound_machine_step_limit_and_break() {
    let mut vm = IpVM::new(example_program(), 0, 0, [0; 6]);
    assert_eq!(vm.run(2), [2, 5, 6, 0, 0, 0]);
    let mut vm = IpVM::new(example_program(), 0, 4, [0; 6]);
    assert_eq!(vm.run(100), [4, 5, 6, 0, 0, 0]);
}
