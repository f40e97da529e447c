use superoptimizer::cpu::Instruction;
use superoptimizer::parser::{output, parse, ParseError};

#[test]
fn from_str_valid_operation() {
    let op = "LOAD 0".parse::<Instruction>();
    assert!(op.is_ok());
    assert_eq!(op.unwrap(), Instruction::Load(0));
}

#[test]
fn from_str_invalid_operation() {
    let op = "INVALID 1".parse::<Instruction>();
    assert!(op.is_err());
    let error = op.unwrap_err();
    assert_eq!(error, ParseError::InvalidOp);
}

#[test]
fn from_str_no_args_operation() {
    let op = "INC".parse::<Instruction>();
    assert!(op.is_err());
    let error = op.unwrap_err();
    assert_eq!(error, ParseError::NoArgs);
}

#[test]
fn can_parse() {
    let assembly = "LOAD 0\nSWAP 1, 2\nXOR 3, 4\nINC 5";
    let result = parse(assembly);
    assert!(result.is_ok());
    let parsed = result.unwrap();
    let expected = vec![
        Instruction::Load(0),
        Instruction::Swap(1, 2),
        Instruction::Xor(3, 4),
        Instruction::Inc(5),
    ];
    assert!(parsed.iter().all(|op| expected.contains(op)));
}

#[test]
fn cant_parse_invalid() {
    let assembly = "LOAD 0\nSWAP 1, 2\nXOR 3, 4\nINVALID 1\nINC 5";
    let result = parse(assembly);
    assert!(result.is_err());
    let error = result.unwrap_err();
    assert_eq!(error, ParseError::InvalidOp);
}

#[test]
fn can_output() {
    let program = vec![
        Instruction::Load(0),
        Instruction::Swap(1, 2),
        Instruction::Xor(3, 4),
        Instruction::Inc(5),
    ];
    let output = output(&program);
    let expected = "LOAD 0\nSWAP 1, 2\nXOR 3, 4\nINC 5";
    assert_eq!(output, expected);
}

#[test]
fn can_parse_and_output() {
    let assembly = "LOAD 0\nSWAP 1, 2\nXOR 3, 4\nINC 5";
    let result = parse(assembly);
    assert!(result.is_ok());
    let parsed = result.unwrap();
    let output = output(&parsed);
    let expected = "LOAD 0\nSWAP 1, 2\nXOR 3, 4\nINC 5";
    assert_eq!(output, expected);
}

#[test]
fn negative_argument_is_rejected() {
    let op = "LOAD -1".parse::<Instruction>();
    assert_eq!(op.unwrap_err(), ParseError::ArgParse);
}

#[test]
fn oversized_argument_is_rejected() {
    let op = "LOAD 99999999999999999999999999".parse::<Instruction>();
    assert_eq!(op.unwrap_err(), ParseError::ArgParse);
}

#[test]
fn missing_second_argument_is_rejected() {
    let op = "SWAP 1".parse::<Instruction>();
    assert_eq!(op.unwrap_err(), ParseError::NoArgs);
}

#[test]
fn renders_multi_digit_values() {
    let program = vec![Instruction::Load(120), Instruction::Swap(10, 0)];
    assert_eq!(output(&program), "LOAD 120\nSWAP 10, 0");
}

#[test]
fn parses_windows_line_endings() {
    let parsed = parse("LOAD 1\r\nINC 0").unwrap();
    assert_eq!(parsed, vec![Instruction::Load(1), Instruction::Inc(0)]);
}

#[test]
fn empty_line_is_rejected() {
    let result = parse("LOAD 1\n\nINC 0");
    assert_eq!(result.unwrap_err(), ParseError::NoArgs);
}
