//! A four-register machine with sixteen opcodes.

use vstd::prelude::*;
use std::collections::HashMap;

verus! {

/// Four registers, or an instruction: opcode number and operands A, B, C.
pub type Word = [u32; 4];

/// The sixteen operations: add, multiply, bitwise and, bitwise or, set,
/// greater-than and equal-to, each reading its operands from registers (`r`)
/// or taking them as immediate values (`i`).
#[derive(Clone, Copy, Debug, PartialEq, Eq, Hash, Structural)]
pub enum Op {
    Addr,
    Addi,
    Mulr,
    Muli,
    Banr,
    Bani,
    Borr,
    Bori,
    Setr,
    Seti,
    Gtir,
    Gtri,
    Gtrr,
    Eqir,
    Eqri,
    Eqrr,
}

/// Operand A of `op` is an immediate value.
pub open spec fn imm_a(op: Op) -> bool {
    op == Op::Seti || op == Op::Gtir || op == Op::Eqir
}

/// Operand B of `op` is an immediate value.
pub open spec fn imm_b(op: Op) -> bool {
    op == Op::Addi || op == Op::Muli || op == Op::Bani || op == Op::Bori || op == Op::Gtri || op
        == Op::Eqri
}

/// What `op` computes from its two operand values; sums and products wrap
/// around at 2^32.
pub open spec fn apply(op: Op, a: u32, b: u32) -> u32 {
    match op {
        Op::Addr | Op::Addi => ((a + b) % 0x1_0000_0000) as u32,
        Op::Mulr | Op::Muli => ((a * b) % 0x1_0000_0000) as u32,
        Op::Banr | Op::Bani => a & b,
        Op::Borr | Op::Bori => a | b,
        Op::Setr | Op::Seti => a,
        Op::Gtir | Op::Gtri | Op::Gtrr => if a > b { 1 } else { 0 },
        Op::Eqir | Op::Eqri | Op::Eqrr => if a == b { 1 } else { 0 },
    }
}

/// An operand's value: the immediate `v`, or register `v`.
pub open spec fn operand(regs: Seq<u32>, v: u32, imm: bool) -> u32 {
    if imm { v } else { regs[v as int] }
}

/// Every register that the instruction reads or writes exists.
pub open spec fn valid_insn(op: Op, data: Word) -> bool {
    &&& data[3] < 4
    &&& imm_a(op) || data[1] < 4
    &&& imm_b(op) || data[2] < 4
}

/// The registers after executing `op` with operands `data`.
pub open spec fn step(regs: Seq<u32>, op: Op, data: Word) -> Seq<u32> {
    regs.update(
        data[3] as int,
        apply(op, operand(regs, data[1], imm_a(op)), operand(regs, data[2], imm_b(op))),
    )
}

/// The registers after running a program, each opcode number looked up in
/// `table`.
pub open spec fn run_spec(regs: Seq<u32>, prog: Seq<Word>, table: Map<u32, Op>) -> Seq<u32>
    decreases prog.len(),
{
    if prog.len() == 0 {
        regs
    } else {
        let w = prog.last();
        step(run_spec(regs, prog.drop_last(), table), table[w[0]], w)
    }
}

pub struct VM {
    pub regs: Word,
}

impl VM {
    pub fn new(regs: Word) -> (r: Self)
        ensures
            r.regs == regs,
    {
        Self { regs }
    }

    /// Stores `f(a, b)` in register C, where `a` and `b` are operands A and
    /// B, read as immediate values or from registers as `ia` and `ib` say.
    pub fn exec_raw<F: Fn(u32, u32) -> u32>(&mut self, data: Word, ia: bool, ib: bool, f: F)
        requires
            data[3] < 4,
            ia || data[1] < 4,
            ib || data[2] < 4,
            forall|a: u32, b: u32| #[trigger] f.requires((a, b)),
        ensures
            final(self).regs@ == old(self).regs@.update(data[3] as int, final(self).regs[data[3] as int]),
            f.ensures(
                (operand(old(self).regs@, data[1], ia), operand(old(self).regs@, data[2], ib)),
                final(self).regs[data[3] as int],
            ),
    {
        let a = if ia { data[1] } else { self.regs[data[1] as usize] };
        let b = if ib { data[2] } else { self.regs[data[2] as usize] };
        let v = f(a, b);
        self.regs[data[3] as usize] = v;
    }

    /// Executes one instruction, returning the registers after it.
    pub fn exec_insn(&mut self, op: Op, data: Word) -> (r: Word)
        requires
            valid_insn(op, data),
        ensures
            final(self).regs@ == step(old(self).regs@, op, data),
            r == final(self).regs,
    {
        let ghost before = self.regs@;
        match op {
            Op::Addr => self.exec_raw(data, false, false, |a: u32, b: u32| -> (r: u32) ensures r == apply(Op::Addr, a, b) { a.wrapping_add(b) }),
            Op::Addi => self.exec_raw(data, false, true, |a: u32, b: u32| -> (r: u32) ensures r == apply(Op::Addi, a, b) { a.wrapping_add(b) }),
            Op::Mulr => self.exec_raw(data, false, false, |a: u32, b: u32| -> (r: u32) ensures r == apply(Op::Mulr, a, b) { a.wrapping_mul(b) }),
            Op::Muli => self.exec_raw(data, false, true, |a: u32, b: u32| -> (r: u32) ensures r == apply(Op::Muli, a, b) { a.wrapping_mul(b) }),
            Op::Banr => self.exec_raw(data, false, false, |a: u32, b: u32| -> (r: u32) ensures r == apply(Op::Banr, a, b) { a & b }),
            Op::Bani => self.exec_raw(data, false, true, |a: u32, b: u32| -> (r: u32) ensures r == apply(Op::Bani, a, b) { a & b }),
            Op::Borr => self.exec_raw(data, false, false, |a: u32, b: u32| -> (r: u32) ensures r == apply(Op::Borr, a, b) { a | b }),
            Op::Bori => self.exec_raw(data, false, true, |a: u32, b: u32| -> (r: u32) ensures r == apply(Op::Bori, a, b) { a | b }),
            Op::Setr => self.exec_raw(data, false, false, |a: u32, _b: u32| -> (r: u32) ensures r == a { a }),
            Op::Seti => self.exec_raw(data, true, false, |a: u32, _b: u32| -> (r: u32) ensures r == a { a }),
            Op::Gtir => self.exec_raw(data, true, false, |a: u32, b: u32| -> (r: u32) ensures r == apply(Op::Gtir, a, b) { if a > b { 1 } else { 0 } }),
            Op::Gtri => self.exec_raw(data, false, true, |a: u32, b: u32| -> (r: u32) ensures r == apply(Op::Gtri, a, b) { if a > b { 1 } else { 0 } }),
            Op::Gtrr => self.exec_raw(data, false, false, |a: u32, b: u32| -> (r: u32) ensures r == apply(Op::Gtrr, a, b) { if a > b { 1 } else { 0 } }),
            Op::Eqir => self.exec_raw(data, true, false, |a: u32, b: u32| -> (r: u32) ensures r == apply(Op::Eqir, a, b) { if a == b { 1 } else { 0 } }),
            Op::Eqri => self.exec_raw(data, false, true, |a: u32, b: u32| -> (r: u32) ensures r == apply(Op::Eqri, a, b) { if a == b { 1 } else { 0 } }),
            Op::Eqrr => self.exec_raw(data, false, false, |a: u32, b: u32| -> (r: u32) ensures r == apply(Op::Eqrr, a, b) { if a == b { 1 } else { 0 } }),
        }
        assert(self.regs@ =~= step(before, op, data));
        self.regs
    }

    /// Runs a program, looking each opcode number up in `table`, and returns
    /// the registers at the end.
    pub fn run(&mut self, prog: Vec<Word>, table: &HashMap<u32, Op>) -> (r: Word)
        requires
            forall|i: int|
                0 <= i < prog.len() ==> table@.contains_key(#[trigger] prog[i][0]) && valid_insn(
                    table@[prog[i][0]],
                    prog[i],
                ),
        ensures
            r@ == run_spec(old(self).regs@, prog@, table@),
            final(self).regs == r,
    {
        broadcast use vstd::std_specs::hash::group_hash_axioms;
        let ghost start = self.regs@;
        for i in 0..prog.len()
            invariant
                self.regs@ == run_spec(start, prog@.subrange(0, i as int), table@),
                forall|i: int|
                    0 <= i < prog.len() ==> table@.contains_key(#[trigger] prog[i][0]) && valid_insn(
                        table@[prog[i][0]],
                        prog[i],
                    ),
        {
            let word = prog[i];
            let op = match table.get(&word[0]) {
                Some(op) => *op,
                None => Op::Addr,
            };
            assert(prog@.subrange(0, i + 1).drop_last() == prog@.subrange(0, i as int));
            self.exec_insn(op, word);
        }
        assert(prog@.subrange(0, prog.len() as int) == prog@);
        self.regs
    }
}

} // verus!
