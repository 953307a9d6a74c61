use tapelang::interpreter::check_targets;
use tapelang::interpreter::InterpreterBuilder;
use tapelang::interpreter::InterpreterError;
use tapelang::interpreter::RunStatus;
use tapelang::parser::ast;
use tapelang::parser::Token;

const BUDGET: usize = 1_000_000;

#[test]
fn known_scenario_executes() {
    let program = ast("++++[>+.<-]").unwrap();
    let mut it = InterpreterBuilder::new().program(program).memory(8).build();
    assert_eq!(it.run(BUDGET), Ok(RunStatus::Halted));
    assert_eq!(it.output(), &vec![1u8, 2, 3, 4]);
}

#[test]
fn move_left_at_zero_is_out_of_bounds() {
    let program = ast("<").unwrap();
    let mut it = InterpreterBuilder::new().program(program).memory(8).build();
    assert_eq!(it.run(BUDGET), Err(InterpreterError::OutOfBounds));
}

#[test]
fn move_right_past_end_is_out_of_bounds() {
    let program = ast(">>>>").unwrap();
    let mut it = InterpreterBuilder::new().program(program).memory(4).build();
    assert_eq!(it.run(BUDGET), Err(InterpreterError::OutOfBounds));
}

#[test]
fn move_right_to_last_cell_is_fine() {
    let program = ast(">>>").unwrap();
    let mut it = InterpreterBuilder::new().program(program).memory(4).build();
    assert_eq!(it.run(BUDGET), Ok(RunStatus::Halted));
}

#[test]
fn default_tape_has_30000_cells() {
    let mut it = InterpreterBuilder::new()
        .program(vec![Token::Right(29999)])
        .build();
    assert_eq!(it.run(BUDGET), Ok(RunStatus::Halted));
    let mut it = InterpreterBuilder::new()
        .program(vec![Token::Right(30000)])
        .build();
    assert_eq!(it.run(BUDGET), Err(InterpreterError::OutOfBounds));
}

#[test]
fn checked_increment_overflows_at_position() {
    let program = vec![Token::Add(255), Token::Add(1)];
    let mut it = InterpreterBuilder::new()
        .program(program)
        .wrapping(false)
        .memory(8)
        .build();
    assert_eq!(it.run(BUDGET), Err(InterpreterError::IntegerOverflow(1)));
}

#[test]
fn wrapping_increment_wraps_to_zero() {
    let program = vec![Token::Add(255), Token::Add(1), Token::Write];
    let mut it = InterpreterBuilder::new()
        .program(program)
        .wrapping(true)
        .memory(8)
        .build();
    assert_eq!(it.run(BUDGET), Ok(RunStatus::Halted));
    assert_eq!(it.output(), &vec![0u8]);
}

#[test]
fn checked_decrement_underflows_at_position() {
    let program = ast("-").unwrap();
    let mut it = InterpreterBuilder::new()
        .program(program)
        .wrapping(false)
        .memory(8)
        .build();
    assert_eq!(it.run(BUDGET), Err(InterpreterError::IntegerUnderflow(0)));
}

#[test]
fn wrapping_decrement_wraps_to_255() {
    let program = ast("-.").unwrap();
    let mut it = InterpreterBuilder::new().program(program).memory(8).build();
    assert_eq!(it.run(BUDGET), Ok(RunStatus::Halted));
    assert_eq!(it.output(), &vec![255u8]);
}

#[test]
fn read_blocks_until_input_is_provided() {
    let program = ast(",.").unwrap();
    let mut it = InterpreterBuilder::new().program(program).memory(8).build();
    assert_eq!(it.run(BUDGET), Ok(RunStatus::NeedsInput));
    it.provide_input(&vec![b'h', b'i', b'\n']);
    assert_eq!(it.run(BUDGET), Ok(RunStatus::Halted));
    assert_eq!(it.output(), &vec![b'h']);
}

#[test]
fn reads_consume_a_line_in_order() {
    let program = ast(",>,>,<<.>.>.").unwrap();
    let mut it = InterpreterBuilder::new().program(program).memory(8).build();
    assert_eq!(it.run(BUDGET), Ok(RunStatus::NeedsInput));
    it.provide_input(&vec![b'a', b'b', b'\n']);
    assert_eq!(it.run(BUDGET), Ok(RunStatus::Halted));
    assert_eq!(it.output(), &vec![b'a', b'b', b'\n']);
}

#[test]
fn step_budget_reports_still_running() {
    let program = ast("+[]").unwrap();
    let mut it = InterpreterBuilder::new().program(program).memory(8).build();
    assert_eq!(it.run(1000), Ok(RunStatus::Running));
}

#[test]
fn loop_never_entered_when_cell_is_zero() {
    let program = ast("[+++.]").unwrap();
    let mut it = InterpreterBuilder::new().program(program).memory(8).build();
    assert_eq!(it.run(BUDGET), Ok(RunStatus::Halted));
    assert_eq!(it.output(), &Vec::<u8>::new());
}

#[test]
fn check_targets_accepts_resolved_streams() {
    let program = ast("[[.-]]").unwrap();
    assert!(check_targets(&program));
    assert!(!check_targets(&vec![Token::Break(5)]));
}
