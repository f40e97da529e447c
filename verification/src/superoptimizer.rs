//! The search coordinator: enumerate every candidate program that the
//! configured bounds allow, shortest length class first, and return the first
//! program that drives an all-zero machine to the target state.

use vstd::prelude::*;
use vstd::arithmetic::div_mod::{
    lemma_fundamental_div_mod,
    lemma_fundamental_div_mod_converse,
};
use vstd::arithmetic::power::pow;
use vstd::arithmetic::power2::{lemma_pow2_pos, lemma_pow2_strictly_increases, pow2};
use vstd::bits::{lemma_usize_pow2_no_overflow, lemma_usize_shl_is_mul};

use crate::cpu::{
    exec_spec,
    lemma_exec_len,
    step,
    step_ok,
    steps_ok,
    zero_state,
    Instruction,
    CPU,
};
use crate::iters::{all_distinct, lemma_tuple_at_complete, lemma_tuple_at_wf, product, tuple_at};

verus! {

/// The bounds of a search: candidate programs have between 1 and
/// `max_instructions_length` instructions; the machine has
/// `max_memory_cells` cells; a `Load` may carry any value strictly below
/// `max_value`.
#[derive(Debug, Clone, Copy, PartialEq, Eq, Structural)]
pub struct SearchConfig {
    pub max_instructions_length: usize,
    pub max_memory_cells: usize,
    pub max_value: usize,
}

/// Why a search request was rejected before any exploration started.
#[derive(Debug, Clone, Copy, PartialEq, Eq, Structural)]
pub enum SearchError {
    /// A configuration bound is below its minimum.
    InvalidConfig,
    /// The target state has more cells than the machine.
    InvalidTarget,
}

/// Every configuration bound is at least one.
pub open spec fn config_wf(c: SearchConfig) -> bool {
    &&& c.max_instructions_length >= 1
    &&& c.max_memory_cells >= 1
    &&& c.max_value >= 1
}

/// The target state fits into the machine's cells.
pub open spec fn target_wf(c: SearchConfig, target: Seq<usize>) -> bool {
    target.len() <= c.max_memory_cells
}

/// Whether one instruction lies within the configured bounds.
pub open spec fn instr_allowed(c: SearchConfig, instr: Instruction) -> bool {
    match instr {
        Instruction::Load(value) => value < c.max_value,
        Instruction::Swap(a, b) => a < c.max_memory_cells && b < c.max_memory_cells,
        Instruction::Xor(a, b) => a < c.max_memory_cells && b < c.max_memory_cells,
        Instruction::Inc(a) => a < c.max_memory_cells,
    }
}

/// Whether a whole program lies within the configured bounds.
pub open spec fn program_allowed(c: SearchConfig, p: Seq<Instruction>) -> bool {
    &&& 1 <= p.len() <= c.max_instructions_length
    &&& forall|i: int| 0 <= i < p.len() ==> instr_allowed(c, #[trigger] p[i])
}

/// The leading cells of state `s` agree with `target`, position by position;
/// cells beyond the target's length are scratch space and are ignored.
pub open spec fn leading_match(s: Seq<usize>, target: Seq<usize>) -> bool {
    &&& target.len() <= s.len()
    &&& forall|i: int| 0 <= i < target.len() ==> s[i] == #[trigger] target[i]
}

/// Whether running `p` on a machine of all-zero cells reaches `target`.
pub open spec fn reaches_target(c: SearchConfig, p: Seq<Instruction>, target: Seq<usize>) -> bool {
    leading_match(exec_spec(zero_state(c.max_memory_cells as nat), p), target)
}

/// How many distinct instructions the bounds allow.
pub open spec fn universe_size(c: SearchConfig) -> int {
    c.max_value + 2 * c.max_memory_cells * c.max_memory_cells + c.max_memory_cells
}

/// The instruction standing at position `k` of the universe: first every
/// `Load`, then every `Swap`, then every `Xor`, then every `Inc`.
pub open spec fn universe_at(c: SearchConfig, k: int) -> Instruction {
    let m = c.max_memory_cells as int;
    let v = c.max_value as int;
    if k < v {
        Instruction::Load(k as usize)
    } else if k < v + m * m {
        Instruction::Swap((((k - v) % m) as usize), (((k - v) / m) as usize))
    } else if k < v + 2 * m * m {
        Instruction::Xor((((k - v - m * m) % m) as usize), (((k - v - m * m) / m) as usize))
    } else {
        Instruction::Inc((k - v - 2 * m * m) as usize)
    }
}

/// The concrete instruction universe of a configuration.
pub open spec fn universe_spec(c: SearchConfig) -> Seq<Instruction> {
    Seq::new(universe_size(c) as nat, |k: int| universe_at(c, k))
}

/// Every instruction of the universe lies within the bounds.
pub proof fn lemma_universe_allowed(c: SearchConfig, k: int)
    requires
        config_wf(c),
        0 <= k < universe_size(c),
    ensures
        instr_allowed(c, universe_at(c, k)),
{
    let m = c.max_memory_cells as int;
    let v = c.max_value as int;
    assert(2 * m * m == m * m + m * m && m * m >= 0) by (nonlinear_arith)
        requires
            m >= 0,
    ;
    if v <= k < v + m * m {
        lemma_fundamental_div_mod(k - v, m);
        assert(0 <= (k - v) % m < m);
        assert(0 <= (k - v) / m < m) by (nonlinear_arith)
            requires
                m > 0,
                0 <= k - v < m * m,
                k - v == m * ((k - v) / m) + (k - v) % m,
                0 <= (k - v) % m < m,
        ;
    } else if v + m * m <= k < v + 2 * m * m {
        let d = k - v - m * m;
        lemma_fundamental_div_mod(d, m);
        assert(0 <= d % m < m);
        assert(0 <= d / m < m) by (nonlinear_arith)
            requires
                m > 0,
                0 <= d < m * m,
                d == m * (d / m) + d % m,
                0 <= d % m < m,
        ;
    }
}

/// Every instruction within the bounds stands somewhere in the universe.
pub proof fn lemma_universe_complete(c: SearchConfig, instr: Instruction)
    requires
        config_wf(c),
        instr_allowed(c, instr),
    ensures
        universe_spec(c).contains(instr),
{
    let m = c.max_memory_cells as int;
    let v = c.max_value as int;
    let u = universe_spec(c);
    assert(2 * m * m == m * m + m * m && m * m >= 0) by (nonlinear_arith)
        requires
            m >= 0,
    ;
    match instr {
        Instruction::Load(value) => {
            assert(0 <= value < u.len() && u[value as int] == instr);
        },
        Instruction::Swap(a, b) => {
            let k = v + b * m + a;
            assert(0 <= b * m + a < m * m) by (nonlinear_arith)
                requires
                    m > 0,
                    0 <= a < m,
                    0 <= b < m,
            ;
            lemma_fundamental_div_mod_converse(k - v, m, b as int, a as int);
            assert(0 <= k < u.len() && u[k] == instr);
        },
        Instruction::Xor(a, b) => {
            let k = v + m * m + b * m + a;
            assert(0 <= b * m + a < m * m) by (nonlinear_arith)
                requires
                    m > 0,
                    0 <= a < m,
                    0 <= b < m,
            ;
            lemma_fundamental_div_mod_converse(k - v - m * m, m, b as int, a as int);
            assert(0 <= k < u.len() && u[k] == instr);
        },
        Instruction::Inc(a) => {
            let k = v + 2 * m * m + a;
            assert(0 <= a < m);
            assert(0 <= k < u.len() && u[k] == instr);
        },
    }
}

/// No instruction appears twice in the universe.
pub proof fn lemma_universe_distinct(c: SearchConfig)
    requires
        config_wf(c),
    ensures
        all_distinct(universe_spec(c)),
{
    let m = c.max_memory_cells as int;
    let v = c.max_value as int;
    let u = universe_spec(c);
    assert forall|i: int, j: int|
        0 <= i < u.len() && 0 <= j < u.len() && i != j implies u[i] != u[j] by {
        lemma_universe_positions(c, i);
        lemma_universe_positions(c, j);
    }
}

/// Each universe position is recoverable from the instruction standing there.
proof fn lemma_universe_positions(c: SearchConfig, k: int)
    requires
        config_wf(c),
        0 <= k < universe_size(c),
    ensures
        universe_at(c, k) matches Instruction::Load(value) ==> k == value,
        universe_at(c, k) matches Instruction::Swap(a, b) ==> k == c.max_value + b
            * c.max_memory_cells + a,
        universe_at(c, k) matches Instruction::Xor(a, b) ==> k == c.max_value
            + c.max_memory_cells * c.max_memory_cells + b * c.max_memory_cells + a,
        universe_at(c, k) matches Instruction::Inc(a) ==> k == c.max_value + 2
            * c.max_memory_cells * c.max_memory_cells + a,
{
    let m = c.max_memory_cells as int;
    let v = c.max_value as int;
    assert(2 * m * m == m * m + m * m && m * m >= 0) by (nonlinear_arith)
        requires
            m >= 0,
    ;
    if v <= k < v + m * m {
        let d = k - v;
        lemma_fundamental_div_mod(d, m);
        assert(m * (d / m) == (d / m) * m) by (nonlinear_arith);
        assert(0 <= d / m < m) by (nonlinear_arith)
            requires
                m > 0,
                0 <= d < m * m,
                d == m * (d / m) + d % m,
                0 <= d % m < m,
        ;
    } else if v + m * m <= k < v + 2 * m * m {
        let d = k - v - m * m;
        lemma_fundamental_div_mod(d, m);
        assert(m * (d / m) == (d / m) * m) by (nonlinear_arith);
        assert(0 <= d / m < m) by (nonlinear_arith)
            requires
                m > 0,
                0 <= d < m * m,
                d == m * (d / m) + d % m,
                0 <= d % m < m,
        ;
    }
}

/// The concrete instruction universe, as a vector: every instruction the
/// bounds allow, each exactly once, `Load`s first, then `Swap`s, `Xor`s and
/// `Inc`s.
pub fn possible_instructions(config: &SearchConfig) -> (r: Vec<Instruction>)
    requires
        config_wf(*config),
    ensures
        r@ == universe_spec(*config),
{
    let ghost c = *config;
    let ghost m = config.max_memory_cells as int;
    let ghost v = config.max_value as int;
    let mut r: Vec<Instruction> = Vec::new();
    proof {
        assert(2 * m * m == m * m + m * m && m * m >= 0 && 0 * m == 0) by (nonlinear_arith)
            requires
                m >= 0,
        ;
    }
    for value in 0..config.max_value
        invariant
            c == *config,
            r@.len() == value,
            forall|k: int| 0 <= k < r@.len() ==> r@[k] == universe_at(c, k),
    {
        r.push(Instruction::Load(value));
    }
    for b in 0..config.max_memory_cells
        invariant
            c == *config,
            m == c.max_memory_cells as int,
            v == c.max_value as int,
            r@.len() == v + b * m,
            b * m <= m * m,
            forall|k: int| 0 <= k < r@.len() ==> r@[k] == universe_at(c, k),
    {
        assert(b * m + m == (b + 1) * m && (b + 1) * m <= m * m) by (nonlinear_arith)
            requires
                0 <= b < m,
        ;
        for a in 0..config.max_memory_cells
            invariant
                c == *config,
                m == c.max_memory_cells as int,
                v == c.max_value as int,
                b < m,
                r@.len() == v + b * m + a,
                b * m + a <= m * m,
                forall|k: int| 0 <= k < r@.len() ==> r@[k] == universe_at(c, k),
        {
            r.push(Instruction::Swap(a, b));
            proof {
                let k = v + b * m + a;
                lemma_fundamental_div_mod_converse(k - v, m, b as int, a as int);
                assert(0 <= b * m + a < m * m) by (nonlinear_arith)
                    requires
                        0 <= a < m,
                        0 <= b < m,
                ;
                assert(2 * m * m == m * m + m * m) by (nonlinear_arith);
                assert(r@[k] == universe_at(c, k));
            }
        }
    }
    for b in 0..config.max_memory_cells
        invariant
            c == *config,
            m == c.max_memory_cells as int,
            v == c.max_value as int,
            r@.len() == v + m * m + b * m,
            b * m <= m * m,
            forall|k: int| 0 <= k < r@.len() ==> r@[k] == universe_at(c, k),
    {
        assert(b * m + m == (b + 1) * m && (b + 1) * m <= m * m) by (nonlinear_arith)
            requires
                0 <= b < m,
        ;
        for a in 0..config.max_memory_cells
            invariant
                c == *config,
                m == c.max_memory_cells as int,
                v == c.max_value as int,
                b < m,
                r@.len() == v + m * m + b * m + a,
                b * m + a <= m * m,
                forall|k: int| 0 <= k < r@.len() ==> r@[k] == universe_at(c, k),
        {
            r.push(Instruction::Xor(a, b));
            proof {
                let k = v + m * m + b * m + a;
                lemma_fundamental_div_mod_converse(k - v - m * m, m, b as int, a as int);
                assert(0 <= b * m + a < m * m) by (nonlinear_arith)
                    requires
                        0 <= a < m,
                        0 <= b < m,
                ;
                assert(2 * m * m == m * m + m * m) by (nonlinear_arith);
                assert(r@[k] == universe_at(c, k));
            }
        }
    }
    proof {
        assert(2 * m * m == m * m + m * m) by (nonlinear_arith);
    }
    for a in 0..config.max_memory_cells
        invariant
            c == *config,
            m == c.max_memory_cells as int,
            v == c.max_value as int,
            r@.len() == v + 2 * m * m + a,
            forall|k: int| 0 <= k < r@.len() ==> r@[k] == universe_at(c, k),
    {
        r.push(Instruction::Inc(a));
        proof {
            let k = v + 2 * m * m + a;
            assert(2 * m * m == m * m + m * m && m * m >= 0) by (nonlinear_arith)
                requires
                    m >= 0,
            ;
            assert(r@[k] == universe_at(c, k));
        }
    }
    proof {
        assert(r@ =~= universe_spec(c));
    }
    r
}

/// Bitwise xor of two values below a power of two stays below it.
proof fn lemma_xor_below_pow2(x: usize, y: usize, b: nat)
    requires
        b < usize::BITS,
        x < pow2(b),
        y < pow2(b),
    ensures
        (x ^ y) < pow2(b),
{
    let sh = b as usize;
    lemma_usize_pow2_no_overflow(b);
    lemma_usize_shl_is_mul(1usize, sh);
    assert((1usize << sh) == pow2(b));
    assert((x ^ y) < (1usize << sh)) by (bit_vector)
        requires
            sh < usize::BITS,
            x < (1usize << sh),
            y < (1usize << sh),
    ;
}

/// Starting from cells all below `2^b`, a program of allowed instructions
/// keeps every cell below `2^(b + len)` and never faults: a `Load` writes
/// less than `max_value`, a `Swap` permutes, an `Xor` stays below the running
/// power of two, and an `Inc` can at worst push one cell past it.
proof fn lemma_bounded_execution(c: SearchConfig, s: Seq<usize>, p: Seq<Instruction>, b: nat)
    requires
        config_wf(c),
        s.len() == c.max_memory_cells,
        forall|i: int| 0 <= i < s.len() ==> s[i] < pow2(b),
        c.max_value <= pow2(b),
        forall|i: int| 0 <= i < p.len() ==> instr_allowed(c, #[trigger] p[i]),
        b + p.len() < usize::BITS,
    ensures
        steps_ok(s, p),
        forall|i: int|
            0 <= i < exec_spec(s, p).len() ==> exec_spec(s, p)[i] < pow2(b + p.len()),
    decreases p.len(),
{
    lemma_pow2_pos(b);
    if p.len() == 0 {
    } else {
        let instr = p[0];
        let s1 = step(s, instr);
        lemma_usize_pow2_no_overflow(b);
        lemma_pow2_strictly_increases(b, b + 1);
        assert(instr_allowed(c, instr));
        assert(step_ok(s, instr));
        assert(s1.len() == s.len());
        assert forall|i: int| 0 <= i < s1.len() implies s1[i] < pow2(b + 1) by {
            match instr {
                Instruction::Load(value) => {
                    assert(value < c.max_value);
                },
                Instruction::Swap(_, _) => {},
                Instruction::Xor(a2, b2) => {
                    if i == a2 {
                        lemma_xor_below_pow2(s[a2 as int], s[b2 as int], b);
                    }
                },
                Instruction::Inc(_) => {},
            }
        }
        assert forall|i: int| 0 <= i < p.skip(1).len() implies instr_allowed(
            c,
            #[trigger] p.skip(1)[i],
        ) by {
            assert(p.skip(1)[i] == p[i + 1]);
        }
        lemma_bounded_execution(c, s1, p.skip(1), (b + 1) as nat);
        assert(exec_spec(s, p) == exec_spec(s1, p.skip(1)));
        assert((b + 1) as nat + p.skip(1).len() == b + p.len());
        assert forall|i: int|
            0 <= i < exec_spec(s, p).len() implies exec_spec(s, p)[i] < pow2(b + p.len()) by {
            assert(exec_spec(s1, p.skip(1))[i] < pow2((b + 1) as nat + p.skip(1).len()));
        }
    }
}

/// The machine limit under which every candidate execution stays within the
/// machine's integers: each instruction can at worst double the power-of-two
/// bound on the cells, starting from the largest loadable value.
pub open spec fn fits(c: SearchConfig) -> bool {
    &&& c.max_instructions_length < usize::BITS
    &&& c.max_value <= pow2((usize::BITS - 1 - c.max_instructions_length) as nat)
}

/// No allowed candidate program faults when run on a machine whose cells
/// start all zero.
pub proof fn lemma_candidates_safe(c: SearchConfig, p: Seq<Instruction>)
    requires
        config_wf(c),
        fits(c),
        p.len() <= c.max_instructions_length,
        forall|i: int| 0 <= i < p.len() ==> instr_allowed(c, #[trigger] p[i]),
    ensures
        steps_ok(zero_state(c.max_memory_cells as nat), p),
{
    let b = (usize::BITS - 1 - c.max_instructions_length) as nat;
    lemma_pow2_pos(b);
    lemma_bounded_execution(c, zero_state(c.max_memory_cells as nat), p, b);
}

/// The equivalence oracle: run `program` on a machine of `max_memory_cells`
/// zeroed cells and compare the leading cells of the final state with
/// `target`, position by position.
pub fn test_program(program: &Vec<Instruction>, target: &Vec<usize>, max_memory_cells: usize) -> (r:
    bool)
    requires
        steps_ok(zero_state(max_memory_cells as nat), program@),
        target@.len() <= max_memory_cells,
    ensures
        r == leading_match(exec_spec(zero_state(max_memory_cells as nat), program@), target@),
{
    let ghost fin = exec_spec(zero_state(max_memory_cells as nat), program@);
    let mut cpu = CPU::new(max_memory_cells);
    cpu.execute(program);
    proof {
        lemma_exec_len(zero_state(max_memory_cells as nat), program@);
    }
    for i in 0..target.len()
        invariant
            fin == exec_spec(zero_state(max_memory_cells as nat), program@),
            cpu.state@ == fin,
            fin.len() == max_memory_cells,
            target@.len() <= max_memory_cells,
            forall|j: int| 0 <= j < i ==> fin[j] == #[trigger] target@[j],
    {
        if cpu.state[i] != target[i] {
            assert(fin[i as int] != target@[i as int]);
            return false;
        }
    }
    true
}

/// What a finished search reports. A found program lies within the bounds,
/// reaches the target, no strictly shorter allowed program reaches it, and
/// every candidate enumerated before it at its own length fails; "not found"
/// means that no allowed program whatsoever reaches the target.
pub open spec fn search_outcome(
    c: SearchConfig,
    target: Seq<usize>,
    r: Option<Vec<Instruction>>,
) -> bool {
    match r {
        Some(p) => {
            &&& program_allowed(c, p@)
            &&& reaches_target(c, p@, target)
            &&& forall|q: Seq<Instruction>|
                program_allowed(c, q) && q.len() < p@.len() ==> !reaches_target(c, q, target)
            &&& exists|k: int|
                {
                    &&& 0 <= k < pow(universe_size(c), p@.len() as nat)
                    &&& p@ == tuple_at(universe_spec(c), p@.len() as nat, k)
                    &&& forall|k2: int|
                        0 <= k2 < k ==> !reaches_target(
                            c,
                            #[trigger] tuple_at(universe_spec(c), p@.len() as nat, k2),
                            target,
                        )
                }
        },
        None => forall|q: Seq<Instruction>|
            program_allowed(c, q) ==> !reaches_target(c, q, target),
    }
}

/// Every allowed program of length `length` that fails as an enumerated tuple
/// fails as a program: the tuples of that length cover them all.
pub proof fn lemma_length_class_exhausted(c: SearchConfig, target: Seq<usize>, length: nat)
    requires
        config_wf(c),
        forall|k: int|
            0 <= k < pow(universe_size(c), length) ==> !reaches_target(
                c,
                #[trigger] tuple_at(universe_spec(c), length, k),
                target,
            ),
    ensures
        forall|q: Seq<Instruction>|
            program_allowed(c, q) && q.len() == length ==> !reaches_target(c, q, target),
{
    assert forall|q: Seq<Instruction>|
        program_allowed(c, q) && q.len() == length implies !reaches_target(c, q, target) by {
        assert forall|i: int| 0 <= i < q.len() implies universe_spec(c).contains(
            #[trigger] q[i],
        ) by {
            lemma_universe_complete(c, q[i]);
        }
        lemma_tuple_at_complete(universe_spec(c), length, q);
        let k = choose|k: int|
            0 <= k < pow(universe_spec(c).len() as int, length) && #[trigger] tuple_at(
                universe_spec(c),
                length,
                k,
            ) == q;
        assert(universe_spec(c).len() as int == universe_size(c));
        assert(!reaches_target(c, tuple_at(universe_spec(c), length, k), target));
    }
}

/// Search the whole candidate space, shortest length class first, candidates
/// of one length in enumeration order, and return the first program that
/// reaches the target, or none after the space is exhausted.
pub fn generate_and_search_programs(config: &SearchConfig, target_state: &Vec<usize>) -> (r: Option<
    Vec<Instruction>,
>)
    requires
        config_wf(*config),
        fits(*config),
        target_wf(*config, target_state@),
    ensures
        search_outcome(*config, target_state@, r),
{
    let ghost c = *config;
    let ghost t = target_state@;
    let ghost u = universe_spec(c);
    let universe = possible_instructions(config);
    let mut length: usize = 1;
    while length <= config.max_instructions_length
        invariant
            c == *config,
            t == target_state@,
            u == universe_spec(c),
            config_wf(c),
            fits(c),
            target_wf(c, t),
            universe@ == u,
            1 <= length <= config.max_instructions_length + 1,
            forall|q: Seq<Instruction>|
                program_allowed(c, q) && q.len() < length ==> !reaches_target(c, q, t),
        decreases config.max_instructions_length + 1 - length,
    {
        let candidates = product(&universe, length);
        let ghost total = pow(universe_size(c), length as nat);
        proof {
            assert(u.len() as int == universe_size(c));
            assert(candidates@.len() == total);
        }
        let mut idx: usize = 0;
        while idx < candidates.len()
            invariant
                c == *config,
                t == target_state@,
                u == universe_spec(c),
                config_wf(c),
                fits(c),
                target_wf(c, t),
                1 <= length <= config.max_instructions_length,
                total == pow(universe_size(c), length as nat),
                candidates@.len() == total,
                idx <= candidates@.len(),
                forall|k: int|
                    0 <= k < candidates@.len() ==> (#[trigger] candidates@[k])@ == tuple_at(
                        u,
                        length as nat,
                        k,
                    ),
                forall|k: int|
                    0 <= k < idx ==> !reaches_target(
                        c,
                        #[trigger] tuple_at(u, length as nat, k),
                        t,
                    ),
                forall|q: Seq<Instruction>|
                    program_allowed(c, q) && q.len() < length ==> !reaches_target(c, q, t),
            decreases candidates@.len() - idx,
        {
            let candidate = &candidates[idx];
            proof {
                lemma_tuple_at_wf(u, length as nat, idx as int);
                assert forall|i: int| 0 <= i < candidate@.len() implies instr_allowed(
                    c,
                    #[trigger] candidate@[i],
                ) by {
                    assert(u.contains(candidate@[i]));
                    let ki = choose|ki: int| 0 <= ki < u.len() && u[ki] == candidate@[i];
                    lemma_universe_allowed(c, ki);
                }
                lemma_candidates_safe(c, candidate@);
            }
            if test_program(candidate, target_state, config.max_memory_cells) {
                let found = crate::iters::copy_vec(candidate);
                proof {
                    assert(found@ == tuple_at(u, length as nat, idx as int));
                    assert(program_allowed(c, found@));
                    assert(reaches_target(c, found@, t));
                }
                return Some(found);
            }
            idx += 1;
        }
        proof {
            lemma_length_class_exhausted(c, t, length as nat);
        }
        length += 1;
    }
    None
}

/// One length class of the search, explored a bounded chunk of candidates at
/// a time: the private state of one worker of the concurrent coordinator.
///
/// A worker owns one of these; between chunks it polls a shared cooperative
/// cancellation flag, so that once some worker publishes a match, no losing
/// worker tests more than one chunk of further candidates.
pub struct LengthSearch {
    config: SearchConfig,
    target: Vec<usize>,
    length: usize,
    candidates: Vec<Vec<Instruction>>,
    next: usize,
}

impl LengthSearch {
    /// The bounds this worker searches under.
    pub closed spec fn config_spec(self) -> SearchConfig {
        self.config
    }

    /// The target state this worker races towards.
    pub closed spec fn target_spec(self) -> Seq<usize> {
        self.target@
    }

    /// The length of every candidate program of this worker's class.
    pub closed spec fn length_spec(self) -> nat {
        self.length as nat
    }

    /// How many candidates the worker has tested so far.
    pub closed spec fn position_spec(self) -> int {
        self.next as int
    }

    /// How many candidates the worker's whole class holds.
    pub open spec fn total_spec(self) -> int {
        pow(universe_size(self.config_spec()), self.length_spec())
    }

    /// The worker's invariant: its bounds are valid, and it holds its whole
    /// length class in enumeration order, with at most every candidate tested.
    pub closed spec fn wf(self) -> bool {
        &&& config_wf(self.config)
        &&& fits(self.config)
        &&& target_wf(self.config, self.target@)
        &&& 1 <= self.length <= self.config.max_instructions_length
        &&& self.candidates@.len() == pow(universe_size(self.config), self.length as nat)
        &&& forall|k: int|
            0 <= k < self.candidates@.len() ==> (#[trigger] self.candidates@[k])@ == tuple_at(
                universe_spec(self.config),
                self.length as nat,
                k,
            )
        &&& self.next <= self.candidates@.len()
    }

    /// A worker for one length class, with no candidate tested yet.
    pub fn new(config: &SearchConfig, target: &Vec<usize>, length: usize) -> (r: LengthSearch)
        requires
            config_wf(*config),
            fits(*config),
            target_wf(*config, target@),
            1 <= length <= config.max_instructions_length,
        ensures
            r.wf(),
            r.config_spec() == *config,
            r.target_spec() == target@,
            r.length_spec() == length as nat,
            r.position_spec() == 0,
    {
        let universe = possible_instructions(config);
        let candidates = product(&universe, length);
        LengthSearch {
            config: *config,
            target: crate::iters::copy_vec(target),
            length,
            candidates,
            next: 0,
        }
    }

    /// How many candidates the worker has tested so far.
    pub fn position(&self) -> (r: usize)
        ensures
            r == self.position_spec(),
    {
        self.next
    }

    /// Whether the worker has tested its whole length class.
    pub fn exhausted(&self) -> (r: bool)
        requires
            self.wf(),
        ensures
            r == (self.position_spec() == self.total_spec()),
    {
        self.next == self.candidates.len()
    }

    /// Test at most `granularity` more candidates, in enumeration order, and
    /// stop at the first match: the worker's bounded unit of work between two
    /// polls of the cancellation flag.
    pub fn run_chunk(&mut self, granularity: usize) -> (r: Option<Vec<Instruction>>)
        requires
            old(self).wf(),
            granularity >= 1,
        ensures
            final(self).wf(),
            final(self).config_spec() == old(self).config_spec(),
            final(self).target_spec() == old(self).target_spec(),
            final(self).length_spec() == old(self).length_spec(),
            old(self).position_spec() <= final(self).position_spec() <= old(self).position_spec()
                + granularity,
            final(self).position_spec() <= final(self).total_spec(),
            match r {
                Some(p) => {
                    &&& program_allowed(old(self).config_spec(), p@)
                    &&& reaches_target(old(self).config_spec(), p@, old(self).target_spec())
                    &&& p@ == tuple_at(
                        universe_spec(old(self).config_spec()),
                        old(self).length_spec(),
                        final(self).position_spec() - 1,
                    )
                    &&& forall|k: int|
                        old(self).position_spec() <= k < final(self).position_spec() - 1
                            ==> !reaches_target(
                            old(self).config_spec(),
                            #[trigger] tuple_at(
                                universe_spec(old(self).config_spec()),
                                old(self).length_spec(),
                                k,
                            ),
                            old(self).target_spec(),
                        )
                },
                None => {
                    &&& forall|k: int|
                        old(self).position_spec() <= k < final(self).position_spec()
                            ==> !reaches_target(
                            old(self).config_spec(),
                            #[trigger] tuple_at(
                                universe_spec(old(self).config_spec()),
                                old(self).length_spec(),
                                k,
                            ),
                            old(self).target_spec(),
                        )
                    &&& (final(self).position_spec() == final(self).total_spec()
                        || final(self).position_spec() == old(self).position_spec() + granularity)
                },
            },
    {
        let ghost c = self.config;
        let ghost t = self.target@;
        let ghost u = universe_spec(c);
        let ghost start = self.next as int;
        let mut steps: usize = 0;
        while steps < granularity && self.next < self.candidates.len()
            invariant
                self.wf(),
                c == old(self).config_spec(),
                t == old(self).target_spec(),
                self.config == c,
                self.target@ == t,
                self.length == old(self).length,
                self.length as nat == old(self).length_spec(),
                self.candidates@ == old(self).candidates@,
                u == universe_spec(c),
                steps <= granularity,
                self.next == start + steps,
                start == old(self).next,
                forall|k: int|
                    start <= k < self.next ==> !reaches_target(
                        c,
                        #[trigger] tuple_at(u, self.length as nat, k),
                        t,
                    ),
            decreases granularity - steps,
        {
            let candidate = &self.candidates[self.next];
            proof {
                lemma_tuple_at_wf(u, self.length as nat, self.next as int);
                assert forall|i: int| 0 <= i < candidate@.len() implies instr_allowed(
                    c,
                    #[trigger] candidate@[i],
                ) by {
                    assert(u.contains(candidate@[i]));
                    let ki = choose|ki: int| 0 <= ki < u.len() && u[ki] == candidate@[i];
                    lemma_universe_allowed(c, ki);
                }
                lemma_candidates_safe(c, candidate@);
            }
            if test_program(candidate, &self.target, self.config.max_memory_cells) {
                let found = crate::iters::copy_vec(candidate);
                self.next = self.next + 1;
                return Some(found);
            }
            self.next = self.next + 1;
            steps = steps + 1;
        }
        None
    }
}

/// Validate the search request, then explore the whole bounded candidate
/// space: the first program found is returned, "not found" reports an
/// exhausted space, and an invalid request is rejected before any
/// exploration starts.
pub fn superoptimize(config: &SearchConfig, target_state: &Vec<usize>) -> (r: Result<
    Option<Vec<Instruction>>,
    SearchError,
>)
    requires
        fits(*config),
    ensures
        r == Result::<Option<Vec<Instruction>>, SearchError>::Err(SearchError::InvalidConfig)
            <==> !config_wf(*config),
        r == Result::<Option<Vec<Instruction>>, SearchError>::Err(SearchError::InvalidTarget)
            <==> config_wf(*config) && !target_wf(*config, target_state@),
        r matches Ok(found) ==> search_outcome(*config, target_state@, found),
{
    if config.max_instructions_length < 1 || config.max_memory_cells < 1 || config.max_value < 1 {
        return Err(SearchError::InvalidConfig);
    }
    if target_state.len() > config.max_memory_cells {
        return Err(SearchError::InvalidTarget);
    }
    Ok(generate_and_search_programs(config, target_state))
}

} // verus!
