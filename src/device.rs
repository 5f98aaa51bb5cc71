//! A six-register machine whose instruction pointer is bound to a register.

use vstd::prelude::*;
use crate::opcodes::{Op, apply, imm_a, imm_b};

verus! {

/// An instruction: an operation with operands A, B and C.
#[derive(Clone, Copy, Debug, PartialEq, Eq)]
pub struct Insn {
    pub op: Op,
    pub data: [u32; 3],
}

/// Operand B is read from a register.
pub open spec fn reads_b(op: Op) -> bool {
    !imm_b(op) && op != Op::Setr && op != Op::Seti
}

/// Every register that the instruction reads or writes exists.
pub open spec fn valid(insn: Insn) -> bool {
    &&& insn.data[2] < 6
    &&& imm_a(insn.op) || insn.data[0] < 6
    &&& !reads_b(insn.op) || insn.data[1] < 6
}

/// The registers after executing `insn`, before the instruction pointer moves.
pub open spec fn exec_spec(regs: Seq<u32>, insn: Insn) -> Seq<u32> {
    let a = if imm_a(insn.op) { insn.data[0] } else { regs[insn.data[0] as int] };
    let b = if reads_b(insn.op) { regs[insn.data[1] as int] } else { insn.data[1] };
    regs.update(insn.data[2] as int, apply(insn.op, a, b))
}

/// The registers after at most `steps` instructions: the machine stops when
/// the instruction pointer leaves the program, or right after it reaches
/// `break_at`.
pub open spec fn run_steps(regs: Seq<u32>, prog: Seq<Insn>, ip: int, break_at: u32, steps: nat) -> Seq<u32>
    decreases steps,
{
    if steps == 0 || regs[ip] >= prog.len() {
        regs
    } else {
        let r1 = exec_spec(regs, prog[regs[ip] as int]);
        let r2 = r1.update(ip, ((r1[ip] + 1) % 0x1_0000_0000) as u32);
        if r2[ip] == break_at {
            r2
        } else {
            run_steps(r2, prog, ip, break_at, (steps - 1) as nat)
        }
    }
}

pub struct VM {
    pub ip: usize,
    pub prog: Vec<Insn>,
    pub regs: [u32; 6],
    pub break_at: u32,
}

impl VM {
    pub fn new(prog: Vec<Insn>, ip: usize, break_at: u32, regs: [u32; 6]) -> (r: VM)
        ensures
            r.prog == prog,
            r.ip == ip,
            r.break_at == break_at,
            r.regs == regs,
    {
        VM { prog, ip, break_at, regs }
    }

    /// The value of register `n`.
    pub fn reg(&self, n: u32) -> (r: u32)
        requires
            n < 6,
        ensures
            r == self.regs[n as int],
    {
        self.regs[n as usize]
    }

    /// Runs the program for at most `max_steps` instructions and returns the
    /// registers; arithmetic wraps around at 2^32.
    pub fn run(&mut self, max_steps: u64) -> (r: [u32; 6])
        requires
            old(self).ip < 6,
            forall|i: int| 0 <= i < old(self).prog.len() ==> valid(#[trigger] old(self).prog[i]),
        ensures
            r@ == run_steps(old(self).regs@, old(self).prog@, old(self).ip as int, old(self).break_at, max_steps as nat),
            final(self).regs == r,
    {
        let ghost target = run_steps(self.regs@, self.prog@, self.ip as int, self.break_at, max_steps as nat);
        let mut steps = max_steps;
        while steps > 0 && (self.regs[self.ip] as usize) < self.prog.len()
            invariant
                self.ip < 6,
                self.ip == old(self).ip,
                self.prog == old(self).prog,
                self.break_at == old(self).break_at,
                forall|i: int| 0 <= i < self.prog.len() ==> valid(#[trigger] self.prog[i]),
                run_steps(self.regs@, self.prog@, self.ip as int, self.break_at, steps as nat) == target,
                target == run_steps(old(self).regs@, old(self).prog@, old(self).ip as int, old(self).break_at, max_steps as nat),
            decreases steps,
        {
            let ghost prev = self.regs@;
            let insn = self.prog[self.regs[self.ip] as usize];
            let ia = insn.data[0];
            let ib = insn.data[1];
            let it = insn.data[2];
            let a = if imm_op_a(insn.op) { ia } else { self.reg(ia) };
            let b = if reads_op_b(insn.op) { self.reg(ib) } else { ib };
            let v = eval(insn.op, a, b);
            self.regs[it as usize] = v;
            self.regs[self.ip] = self.regs[self.ip].wrapping_add(1);
            proof {
                let r1 = exec_spec(prev, insn);
                assert(self.regs@ =~= r1.update(self.ip as int, ((r1[self.ip as int] + 1) % 0x1_0000_0000) as u32));
            }
            steps = steps - 1;
            if self.regs[self.ip] == self.break_at {
                return self.regs;
            }
        }
        self.regs
    }
}

fn imm_op_a(op: Op) -> (r: bool)
    ensures
        r == imm_a(op),
{
    matches!(op, Op::Seti | Op::Gtir | Op::Eqir)
}

fn reads_op_b(op: Op) -> (r: bool)
    ensures
        r == reads_b(op),
{
    !matches!(op, Op::Addi | Op::Muli | Op::Bani | Op::Bori | Op::Gtri | Op::Eqri | Op::Setr | Op::Seti)
}

/// What `op` computes from its operand values.
fn eval(op: Op, a: u32, b: u32) -> (r: u32)
    ensures
        r == apply(op, a, b),
{
    match op {
        Op::Addr | Op::Addi => a.wrapping_add(b),
        Op::Mulr | Op::Muli => a.wrapping_mul(b),
        Op::Banr | Op::Bani => a & b,
        Op::Borr | Op::Bori => a | b,
        Op::Setr | Op::Seti => a,
        Op::Gtir | Op::Gtri | Op::Gtrr => if a > b { 1 } else { 0 },
        Op::Eqir | Op::Eqri | Op::Eqrr => if a == b { 1 } else { 0 },
    }
}

} // verus!
