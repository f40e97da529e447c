//! The four primitive operations on the machine's memory cells.

use vstd::prelude::*;

verus! {

/// `LOAD v`: write `value` into cell 0.
pub fn load(state: &mut Vec<usize>, value: usize)
    requires
        old(state)@.len() >= 1,
    ensures
        final(state)@ == old(state)@.update(0, value),
{
    state.set(0, value);
}

/// `SWAP i, j`: exchange the contents of cells `memory1` and `memory2`.
pub fn swap(state: &mut Vec<usize>, memory1: usize, memory2: usize)
    requires
        memory1 < old(state)@.len(),
        memory2 < old(state)@.len(),
    ensures
        final(state)@ == old(state)@.update(
            memory1 as int,
            old(state)@[memory2 as int],
        ).update(memory2 as int, old(state)@[memory1 as int]),
{
    let temp = state[memory1];
    let other = state[memory2];
    state.set(memory1, other);
    state.set(memory2, temp);
}

/// `XOR i, j`: replace cell `memory1` by the bitwise xor of cells `memory1`
/// and `memory2`.
pub fn xor(state: &mut Vec<usize>, memory1: usize, memory2: usize)
    requires
        memory1 < old(state)@.len(),
        memory2 < old(state)@.len(),
    ensures
        final(state)@ == old(state)@.update(
            memory1 as int,
            old(state)@[memory1 as int] ^ old(state)@[memory2 as int],
        ),
{
    let value = state[memory1] ^ state[memory2];
    state.set(memory1, value);
}

/// `INC i`: add one to cell `memory`.
pub fn inc(state: &mut Vec<usize>, memory: usize)
    requires
        memory < old(state)@.len(),
        old(state)@[memory as int] < usize::MAX,
    ensures
        final(state)@ == old(state)@.update(
            memory as int,
            (old(state)@[memory as int] + 1) as usize,
        ),
{
    let value = state[memory] + 1;
    state.set(memory, value);
}

} // verus!
