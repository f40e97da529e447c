//! The virtual machine: the instruction set and the machine that executes it.

use vstd::prelude::*;

use crate::operations;

verus! {

/// One instruction of the machine. `Load` carries a value, the others carry
/// indices of memory cells.
#[derive(Debug, Clone, Copy, PartialEq, Eq, Structural)]
pub enum Instruction {
    Load(usize),
    Swap(usize, usize),
    Xor(usize, usize),
    Inc(usize),
}

/// The mnemonic of an instruction, as a sequence of characters.
pub open spec fn spec_operation(instr: Instruction) -> Seq<char> {
    match instr {
        Instruction::Load(_) => "LOAD"@,
        Instruction::Swap(_, _) => "SWAP"@,
        Instruction::Xor(_, _) => "XOR"@,
        Instruction::Inc(_) => "INC"@,
    }
}

/// The arguments of an instruction, in the order they are written.
pub open spec fn spec_arguments(instr: Instruction) -> Seq<usize> {
    match instr {
        Instruction::Load(value) => seq![value],
        Instruction::Swap(memory1, memory2) => seq![memory1, memory2],
        Instruction::Xor(memory1, memory2) => seq![memory1, memory2],
        Instruction::Inc(memory) => seq![memory],
    }
}

impl Instruction {
    /// The mnemonic of the instruction.
    pub fn operation(&self) -> (r: String)
        ensures
            r@ == spec_operation(*self),
    {
        match self {
            Instruction::Load(_) => String::from_str("LOAD"),
            Instruction::Swap(_, _) => String::from_str("SWAP"),
            Instruction::Xor(_, _) => String::from_str("XOR"),
            Instruction::Inc(_) => String::from_str("INC"),
        }
    }

    /// The arguments of the instruction.
    pub fn arguments(&self) -> (r: Vec<usize>)
        ensures
            r@ == spec_arguments(*self),
    {
        match self {
            Instruction::Load(value) => {
                let r = vec![*value];
                assert(r@ =~= spec_arguments(*self));
                r
            },
            Instruction::Swap(memory1, memory2) => {
                let r = vec![*memory1, *memory2];
                assert(r@ =~= spec_arguments(*self));
                r
            },
            Instruction::Xor(memory1, memory2) => {
                let r = vec![*memory1, *memory2];
                assert(r@ =~= spec_arguments(*self));
                r
            },
            Instruction::Inc(memory) => {
                let r = vec![*memory];
                assert(r@ =~= spec_arguments(*self));
                r
            },
        }
    }
}

/// A state vector whose cells are all zero.
pub open spec fn zero_state(cells: nat) -> Seq<usize> {
    Seq::new(cells, |i: int| 0usize)
}

/// Whether one instruction can be applied to state `s` without a fault: its
/// cell indices are in bounds, and an increment does not overflow a cell.
pub open spec fn step_ok(s: Seq<usize>, instr: Instruction) -> bool {
    match instr {
        Instruction::Load(_) => s.len() >= 1,
        Instruction::Swap(a, b) => a < s.len() && b < s.len(),
        Instruction::Xor(a, b) => a < s.len() && b < s.len(),
        Instruction::Inc(a) => a < s.len() && s[a as int] < usize::MAX,
    }
}

/// The effect of one instruction on state `s`.
pub open spec fn step(s: Seq<usize>, instr: Instruction) -> Seq<usize> {
    match instr {
        Instruction::Load(value) => s.update(0, value),
        Instruction::Swap(a, b) => s.update(a as int, s[b as int]).update(b as int, s[a as int]),
        Instruction::Xor(a, b) => s.update(a as int, s[a as int] ^ s[b as int]),
        Instruction::Inc(a) => s.update(a as int, (s[a as int] + 1) as usize),
    }
}

/// Whether a whole program can run from state `s` without a fault.
pub open spec fn steps_ok(s: Seq<usize>, program: Seq<Instruction>) -> bool
    decreases program.len(),
{
    program.len() == 0 || (step_ok(s, program[0]) && steps_ok(step(s, program[0]), program.skip(1)))
}

/// The state after running a whole program from state `s`, instruction by
/// instruction, left to right.
pub open spec fn exec_spec(s: Seq<usize>, program: Seq<Instruction>) -> Seq<usize>
    decreases program.len(),
{
    if program.len() == 0 {
        s
    } else {
        exec_spec(step(s, program[0]), program.skip(1))
    }
}

/// One fault-free instruction never changes the number of cells.
pub proof fn lemma_step_len(s: Seq<usize>, instr: Instruction)
    requires
        step_ok(s, instr),
    ensures
        step(s, instr).len() == s.len(),
{
}

/// A fault-free program never changes the number of cells.
pub proof fn lemma_exec_len(s: Seq<usize>, program: Seq<Instruction>)
    requires
        steps_ok(s, program),
    ensures
        exec_spec(s, program).len() == s.len(),
    decreases program.len(),
{
    if program.len() > 0 {
        lemma_exec_len(step(s, program[0]), program.skip(1));
    }
}

/// Running the first `i + 1` instructions is running the first `i` and then
/// one more; and that one more step is fault-free whenever the whole program
/// is.
pub proof fn lemma_exec_unfold(s: Seq<usize>, program: Seq<Instruction>, i: int)
    requires
        0 <= i < program.len(),
    ensures
        exec_spec(s, program.take(i + 1)) == step(exec_spec(s, program.take(i)), program[i]),
        steps_ok(s, program) ==> step_ok(exec_spec(s, program.take(i)), program[i]),
        steps_ok(s, program) ==> steps_ok(s, program.take(i)),
    decreases i,
{
    if i == 0 {
        let t1 = program.take(1);
        assert(t1.len() == 1 && t1[0] == program[0]);
        assert(program.take(0) =~= Seq::<Instruction>::empty());
        assert(exec_spec(s, program.take(0)) == s);
        assert(t1.skip(1) =~= Seq::<Instruction>::empty());
        assert(exec_spec(s, t1) == exec_spec(step(s, program[0]), t1.skip(1)));
        assert(exec_spec(step(s, program[0]), t1.skip(1)) == step(s, program[0]));
    } else {
        let s1 = step(s, program[0]);
        let rest = program.skip(1);
        lemma_exec_unfold(s1, rest, i - 1);
        let ti1 = program.take(i + 1);
        let ti = program.take(i);
        assert(ti1.len() == i + 1 && ti1[0] == program[0]);
        assert(ti.len() == i && ti[0] == program[0]);
        assert(ti1.skip(1) =~= rest.take(i));
        assert(ti.skip(1) =~= rest.take(i - 1));
        assert(exec_spec(s, ti1) == exec_spec(s1, rest.take(i)));
        assert(exec_spec(s, ti) == exec_spec(s1, rest.take(i - 1)));
        assert(rest[i - 1] == program[i]);
        if steps_ok(s, program) {
            assert(steps_ok(s1, rest));
            assert(step_ok(s, ti[0]));
            assert(steps_ok(s, ti));
        }
    }
}

/// Running the whole program is running all of its prefix instructions.
pub proof fn lemma_exec_take_all(s: Seq<usize>, program: Seq<Instruction>)
    ensures
        exec_spec(s, program.take(program.len() as int)) == exec_spec(s, program),
{
    assert(program.take(program.len() as int) =~= program);
}

/// A fault-free prefix, followed by one more fault-free step, is a fault-free
/// longer prefix.
pub proof fn lemma_steps_ok_extend(s: Seq<usize>, program: Seq<Instruction>, i: int)
    requires
        0 <= i < program.len(),
        steps_ok(s, program.take(i)),
        step_ok(exec_spec(s, program.take(i)), program[i]),
    ensures
        steps_ok(s, program.take(i + 1)),
    decreases i,
{
    lemma_exec_unfold(s, program, i);
    if i == 0 {
        let t1 = program.take(1);
        assert(t1.len() == 1 && t1[0] == program[0]);
        assert(exec_spec(s, program.take(0)) == s);
        assert(t1.skip(1) =~= Seq::<Instruction>::empty());
        assert(steps_ok(step(s, program[0]), t1.skip(1)));
    } else {
        let s1 = step(s, program[0]);
        let rest = program.skip(1);
        let ti = program.take(i);
        let ti1 = program.take(i + 1);
        assert(ti.len() == i && ti[0] == program[0]);
        assert(ti1.len() == i + 1 && ti1[0] == program[0]);
        assert(ti.skip(1) =~= rest.take(i - 1));
        assert(ti1.skip(1) =~= rest.take(i));
        assert(steps_ok(s1, rest.take(i - 1)));
        assert(exec_spec(s, ti) == exec_spec(s1, rest.take(i - 1)));
        assert(rest[i - 1] == program[i]);
        lemma_steps_ok_extend(s1, rest, i - 1);
    }
}

/// The machine: a fixed-length vector of memory cells.
#[derive(Debug, Clone)]
pub struct CPU {
    pub state: Vec<usize>,
}

impl CPU {
    /// A machine with `max_allowed_memory_cells` cells, all zero.
    pub fn new(max_allowed_memory_cells: usize) -> (r: CPU)
        ensures
            r.state@ == zero_state(max_allowed_memory_cells as nat),
    {
        let state = vec![0usize; max_allowed_memory_cells];
        assert(state@ =~= zero_state(max_allowed_memory_cells as nat));
        CPU { state }
    }

    /// Zero every cell, keeping the number of cells.
    pub fn reset(&mut self)
        ensures
            final(self).state@ == zero_state(old(self).state@.len()),
    {
        let cells = self.state.len();
        self.state = vec![0usize; cells];
        assert(self.state@ =~= zero_state(cells as nat));
    }

    /// Apply every instruction of `program` in order, left to right.
    ///
    /// The caller owes a program that runs without a fault: indices in
    /// bounds, no cell incremented past the largest machine integer.
    pub fn execute(&mut self, program: &Vec<Instruction>)
        requires
            steps_ok(old(self).state@, program@),
        ensures
            final(self).state@ == exec_spec(old(self).state@, program@),
    {
        let ghost s0 = self.state@;
        let ghost p = program@;
        for i in 0..program.len()
            invariant
                p == program@,
                steps_ok(s0, p),
                self.state@ == exec_spec(s0, p.take(i as int)),
        {
            proof {
                lemma_exec_unfold(s0, p, i as int);
                lemma_exec_len(s0, p.take(i as int));
            }
            match program[i] {
                Instruction::Load(value) => operations::load(&mut self.state, value),
                Instruction::Swap(memory1, memory2) => operations::swap(
                    &mut self.state,
                    memory1,
                    memory2,
                ),
                Instruction::Xor(memory1, memory2) => operations::xor(
                    &mut self.state,
                    memory1,
                    memory2,
                ),
                Instruction::Inc(memory) => operations::inc(&mut self.state, memory),
            }
        }
        proof {
            lemma_exec_take_all(s0, p);
        }
    }

    /// Apply the whole program if it runs without a fault, and say whether it
    /// did. A program that would fault — a cell index out of bounds, or an
    /// increment past the largest machine integer — is rejected at the
    /// faulting instruction and leaves the machine untouched.
    pub fn try_execute(&mut self, program: &Vec<Instruction>) -> (ok: bool)
        ensures
            ok == steps_ok(old(self).state@, program@),
            ok ==> final(self).state@ == exec_spec(old(self).state@, program@),
            !ok ==> final(self).state@ == old(self).state@,
    {
        let ghost s0 = self.state@;
        let ghost p = program@;
        let mut scratch = crate::iters::copy_vec(&self.state);
        for i in 0..program.len()
            invariant
                p == program@,
                self.state@ == s0,
                steps_ok(s0, p.take(i as int)),
                scratch@ == exec_spec(s0, p.take(i as int)),
        {
            let ghost mid = exec_spec(s0, p.take(i as int));
            let faulted = match program[i] {
                Instruction::Load(value) => {
                    if scratch.len() >= 1 {
                        operations::load(&mut scratch, value);
                        false
                    } else {
                        true
                    }
                },
                Instruction::Swap(memory1, memory2) => {
                    if memory1 < scratch.len() && memory2 < scratch.len() {
                        operations::swap(&mut scratch, memory1, memory2);
                        false
                    } else {
                        true
                    }
                },
                Instruction::Xor(memory1, memory2) => {
                    if memory1 < scratch.len() && memory2 < scratch.len() {
                        operations::xor(&mut scratch, memory1, memory2);
                        false
                    } else {
                        true
                    }
                },
                Instruction::Inc(memory) => {
                    if memory < scratch.len() && scratch[memory] < usize::MAX {
                        operations::inc(&mut scratch, memory);
                        false
                    } else {
                        true
                    }
                },
            };
            if faulted {
                proof {
                    assert(!step_ok(mid, p[i as int]));
                    if steps_ok(s0, p) {
                        lemma_exec_unfold(s0, p, i as int);
                    }
                }
                return false;
            }
            proof {
                assert(step_ok(mid, p[i as int]));
                lemma_steps_ok_extend(s0, p, i as int);
                lemma_exec_unfold(s0, p, i as int);
            }
        }
        proof {
            assert(p.take(p.len() as int) =~= p);
        }
        self.state = scratch;
        true
    }
}

/// Execution is deterministic: one program, run twice from one and the same
/// state, ends in identical states.
pub proof fn lemma_execution_deterministic(
    s1: Seq<usize>,
    s2: Seq<usize>,
    program: Seq<Instruction>,
)
    requires
        s1 == s2,
    ensures
        exec_spec(s1, program) == exec_spec(s2, program),
{
}

} // verus!
