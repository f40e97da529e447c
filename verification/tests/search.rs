use superoptimizer::cpu::{Instruction, CPU};
use superoptimizer::superoptimizer::{
    generate_and_search_programs,
    possible_instructions,
    superoptimize,
    test_program,
    LengthSearch,
    SearchConfig,
    SearchError,
};

#[test]
fn finds_single_load() {
    let config = SearchConfig { max_instructions_length: 1, max_memory_cells: 2, max_value: 2 };
    let target = vec![1, 0];
    let result = superoptimize(&config, &target);
    assert_eq!(result, Ok(Some(vec![Instruction::Load(1)])));
}

#[test]
fn finds_single_increment() {
    let config = SearchConfig { max_instructions_length: 2, max_memory_cells: 2, max_value: 1 };
    let target = vec![0, 1];
    let result = superoptimize(&config, &target);
    let program = result.unwrap().expect("a program reaching the target exists");
    let mut cpu = CPU::new(2);
    cpu.execute(&program);
    assert_eq!(cpu.state, vec![0, 1]);
    assert_eq!(program, vec![Instruction::Inc(1)]);
}

#[test]
fn unreachable_target_is_not_found() {
    let config = SearchConfig { max_instructions_length: 1, max_memory_cells: 1, max_value: 1 };
    let target = vec![5];
    let result = superoptimize(&config, &target);
    assert_eq!(result, Ok(None));
}

#[test]
fn zero_memory_cells_is_rejected() {
    let config = SearchConfig { max_instructions_length: 4, max_memory_cells: 0, max_value: 5 };
    let result = superoptimize(&config, &vec![]);
    assert_eq!(result, Err(SearchError::InvalidConfig));
}

#[test]
fn zero_length_bound_is_rejected() {
    let config = SearchConfig { max_instructions_length: 0, max_memory_cells: 2, max_value: 5 };
    let result = superoptimize(&config, &vec![1]);
    assert_eq!(result, Err(SearchError::InvalidConfig));
}

#[test]
fn zero_value_bound_is_rejected() {
    let config = SearchConfig { max_instructions_length: 2, max_memory_cells: 2, max_value: 0 };
    let result = superoptimize(&config, &vec![1]);
    assert_eq!(result, Err(SearchError::InvalidConfig));
}

#[test]
fn oversized_target_is_rejected() {
    let config = SearchConfig { max_instructions_length: 2, max_memory_cells: 2, max_value: 2 };
    let result = superoptimize(&config, &vec![0, 0, 0]);
    assert_eq!(result, Err(SearchError::InvalidTarget));
}

#[test]
fn universe_holds_every_allowed_instruction_once() {
    let config = SearchConfig { max_instructions_length: 1, max_memory_cells: 2, max_value: 3 };
    let universe = possible_instructions(&config);
    assert_eq!(universe.len(), 3 + 2 * 2 * 2 + 2);
    for i in 0..universe.len() {
        for j in 0..universe.len() {
            if i != j {
                assert_ne!(universe[i], universe[j]);
            }
        }
    }
    assert!(universe.contains(&Instruction::Load(0)));
    assert!(universe.contains(&Instruction::Load(2)));
    assert!(universe.contains(&Instruction::Swap(1, 0)));
    assert!(universe.contains(&Instruction::Xor(0, 1)));
    assert!(universe.contains(&Instruction::Inc(1)));
    assert!(!universe.contains(&Instruction::Load(3)));
    assert!(!universe.contains(&Instruction::Inc(2)));
}

#[test]
fn oracle_accepts_only_matching_programs() {
    let target = vec![2, 0];
    assert!(test_program(&vec![Instruction::Load(2)], &target, 2));
    assert!(!test_program(&vec![Instruction::Load(1)], &target, 2));
    assert!(!test_program(&vec![Instruction::Inc(1)], &target, 2));
}

#[test]
fn oracle_ignores_scratch_cells() {
    let target = vec![3];
    assert!(test_program(&vec![Instruction::Load(3), Instruction::Inc(1)], &target, 2));
}

#[test]
fn search_returns_the_shortest_match_first() {
    let config = SearchConfig { max_instructions_length: 3, max_memory_cells: 2, max_value: 4 };
    let target = vec![2];
    let result = generate_and_search_programs(&config, &target);
    assert_eq!(result, Some(vec![Instruction::Load(2)]));
}

#[test]
fn worker_tests_at_most_one_chunk_of_candidates() {
    let config = SearchConfig { max_instructions_length: 1, max_memory_cells: 1, max_value: 1 };
    let target = vec![7];
    let mut worker = LengthSearch::new(&config, &target, 1);
    assert_eq!(worker.position(), 0);
    let granularity = 2;
    let found = worker.run_chunk(granularity);
    assert!(found.is_none());
    assert!(worker.position() <= granularity);
    while !worker.exhausted() {
        let before = worker.position();
        let step = worker.run_chunk(granularity);
        assert!(step.is_none());
        assert!(worker.position() - before <= granularity);
    }
    assert_eq!(worker.position(), 1 + 2 * 1 * 1 + 1);
}

#[test]
fn worker_stops_at_the_first_match() {
    let config = SearchConfig { max_instructions_length: 1, max_memory_cells: 2, max_value: 2 };
    let target = vec![1, 0];
    let mut worker = LengthSearch::new(&config, &target, 1);
    let found = worker.run_chunk(1000);
    assert_eq!(found, Some(vec![Instruction::Load(1)]));
    let mut cpu = CPU::new(2);
    cpu.execute(&found.unwrap());
    assert_eq!(cpu.state[0], 1);
    assert_eq!(worker.position(), 2);
}

#[test]
fn workers_cover_all_lengths_of_an_unsatisfiable_space() {
    let config = SearchConfig { max_instructions_length: 2, max_memory_cells: 1, max_value: 1 };
    let target = vec![9];
    for length in 1..=config.max_instructions_length {
        let mut worker = LengthSearch::new(&config, &target, length);
        while !worker.exhausted() {
            assert!(worker.run_chunk(3).is_none());
        }
    }
    assert_eq!(superoptimize(&config, &target), Ok(None));
}
