use superoptimizer::cpu::{Instruction, CPU};
use superoptimizer::iters::product;
use superoptimizer::operations::{inc, load, swap, xor};

#[test]
fn can_execute_program() {
    let program = vec![
        Instruction::Load(3),
        Instruction::Swap(0, 2),
        Instruction::Load(2),
        Instruction::Swap(0, 4),
        Instruction::Inc(4),
        Instruction::Xor(2, 4),
    ];
    let mut cpu = CPU::new(6);
    cpu.execute(&program);
    assert_eq!(cpu.state, vec![0, 0, 0, 0, 3, 0]);
}

#[test]
fn can_load() {
    let mut state = vec![0; 4];
    load(&mut state, 1);
    assert_eq!(state, vec![1, 0, 0, 0]);
}

#[test]
fn can_swap() {
    let mut state = vec![0, 1, 0, 0, 0];
    swap(&mut state, 1, 2);
    assert_eq!(state, vec![0, 0, 1, 0, 0]);
}

#[test]
fn can_xor() {
    let mut state = vec![0, 1, 0, 1, 0];
    xor(&mut state, 1, 3);
    assert_eq!(state, vec![0, 0, 0, 1, 0]);
}

#[test]
fn can_inc() {
    let mut state = vec![0; 4];
    inc(&mut state, 3);
    assert_eq!(state, vec![0, 0, 0, 1]);
}

#[test]
fn can_product_2x2() {
    let result = product::<i32>(&vec![1, 2], 2);
    assert_eq!(result.len(), 4);
    assert!(result.contains(&vec![1, 1]));
    assert!(result.contains(&vec![1, 2]));
    assert!(result.contains(&vec![2, 1]));
    assert!(result.contains(&vec![2, 2]));
}

#[test]
fn can_product_with_3x3() {
    let result = product::<&str>(&vec!["LOAD", "SWAP", "INC"], 3);
    assert_eq!(result.len(), 27);
    assert!(result.contains(&vec!["LOAD", "LOAD", "LOAD"]));
    assert!(result.contains(&vec!["LOAD", "LOAD", "SWAP"]));
    assert!(result.contains(&vec!["LOAD", "LOAD", "INC"]));
    assert!(result.contains(&vec!["LOAD", "SWAP", "LOAD"]));
    assert!(result.contains(&vec!["LOAD", "SWAP", "SWAP"]));
    assert!(result.contains(&vec!["LOAD", "SWAP", "INC"]));
    assert!(result.contains(&vec!["LOAD", "INC", "LOAD"]));
    assert!(result.contains(&vec!["LOAD", "INC", "SWAP"]));
    assert!(result.contains(&vec!["LOAD", "INC", "INC"]));
    assert!(result.contains(&vec!["SWAP", "LOAD", "LOAD"]));
    assert!(result.contains(&vec!["SWAP", "LOAD", "SWAP"]));
    assert!(result.contains(&vec!["SWAP", "LOAD", "INC"]));
    assert!(result.contains(&vec!["SWAP", "SWAP", "LOAD"]));
    assert!(result.contains(&vec!["SWAP", "SWAP", "SWAP"]));
    assert!(result.contains(&vec!["SWAP", "SWAP", "INC"]));
    assert!(result.contains(&vec!["SWAP", "INC", "LOAD"]));
    assert!(result.contains(&vec!["SWAP", "INC", "SWAP"]));
    assert!(result.contains(&vec!["SWAP", "INC", "INC"]));
    assert!(result.contains(&vec!["INC", "LOAD", "LOAD"]));
    assert!(result.contains(&vec!["INC", "LOAD", "SWAP"]));
    assert!(result.contains(&vec!["INC", "LOAD", "INC"]));
    assert!(result.contains(&vec!["INC", "SWAP", "LOAD"]));
    assert!(result.contains(&vec!["INC", "SWAP", "SWAP"]));
    assert!(result.contains(&vec!["INC", "SWAP", "INC"]));
    assert!(result.contains(&vec!["INC", "INC", "LOAD"]));
    assert!(result.contains(&vec!["INC", "INC", "SWAP"]));
    assert!(result.contains(&vec!["INC", "INC", "INC"]));
}

#[test]
fn can_product_with_4x2() {
    let result = product::<&str>(&vec!["LOAD", "SWAP", "XOR", "INC"], 2);
    assert_eq!(result.len(), 16);
    assert!(result.contains(&vec!["LOAD", "LOAD"]));
    assert!(result.contains(&vec!["LOAD", "SWAP"]));
    assert!(result.contains(&vec!["LOAD", "XOR"]));
    assert!(result.contains(&vec!["LOAD", "INC"]));
    assert!(result.contains(&vec!["SWAP", "LOAD"]));
    assert!(result.contains(&vec!["SWAP", "SWAP"]));
    assert!(result.contains(&vec!["SWAP", "XOR"]));
    assert!(result.contains(&vec!["SWAP", "INC"]));
    assert!(result.contains(&vec!["XOR", "LOAD"]));
    assert!(result.contains(&vec!["XOR", "SWAP"]));
    assert!(result.contains(&vec!["XOR", "XOR"]));
    assert!(result.contains(&vec!["XOR", "INC"]));
    assert!(result.contains(&vec!["INC", "LOAD"]));
    assert!(result.contains(&vec!["INC", "SWAP"]));
    assert!(result.contains(&vec!["INC", "XOR"]));
    assert!(result.contains(&vec!["INC", "INC"]));
}

#[test]
fn product_tuples_are_unique() {
    let result = product::<i32>(&vec![1, 2, 3], 3);
    assert_eq!(result.len(), 27);
    for i in 0..result.len() {
        for j in 0..result.len() {
            if i != j {
                assert_ne!(result[i], result[j]);
            }
        }
    }
}

#[test]
fn execution_is_deterministic() {
    let program = vec![
        Instruction::Load(7),
        Instruction::Swap(0, 1),
        Instruction::Inc(0),
        Instruction::Xor(1, 0),
    ];
    let mut first = CPU::new(3);
    first.execute(&program);
    let mut second = CPU::new(3);
    second.execute(&program);
    assert_eq!(first.state, second.state);
}

#[test]
fn reset_zeroes_every_cell() {
    let mut cpu = CPU::new(3);
    cpu.execute(&vec![Instruction::Load(5), Instruction::Inc(2)]);
    assert_eq!(cpu.state, vec![5, 0, 1]);
    cpu.reset();
    assert_eq!(cpu.state, vec![0, 0, 0]);
}

#[test]
fn instruction_describes_itself() {
    assert_eq!(Instruction::Load(3).operation(), "LOAD");
    assert_eq!(Instruction::Swap(0, 1).operation(), "SWAP");
    assert_eq!(Instruction::Xor(4, 2).operation(), "XOR");
    assert_eq!(Instruction::Inc(9).operation(), "INC");
    assert_eq!(Instruction::Load(3).arguments(), vec![3]);
    assert_eq!(Instruction::Swap(0, 1).arguments(), vec![0, 1]);
    assert_eq!(Instruction::Xor(4, 2).arguments(), vec![4, 2]);
    assert_eq!(Instruction::Inc(9).arguments(), vec![9]);
}

#[test]
fn try_execute_applies_a_safe_program() {
    let mut cpu = CPU::new(2);
    let ok = cpu.try_execute(&vec![Instruction::Load(4), Instruction::Swap(0, 1)]);
    assert!(ok);
    assert_eq!(cpu.state, vec![0, 4]);
}

#[test]
fn try_execute_rejects_an_out_of_bounds_index() {
    let mut cpu = CPU::new(2);
    let ok = cpu.try_execute(&vec![Instruction::Load(1), Instruction::Inc(5)]);
    assert!(!ok);
    assert_eq!(cpu.state, vec![0, 0]);
}

#[test]
fn try_execute_rejects_an_overflowing_increment() {
    let mut cpu = CPU::new(1);
    let ok = cpu.try_execute(&vec![Instruction::Load(usize::MAX), Instruction::Inc(0)]);
    assert!(!ok);
    assert_eq!(cpu.state, vec![0]);
}
