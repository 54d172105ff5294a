use biir::interpreter::{Action, Interpreter, OutputMode, RuntimeError};
use biir::parser::Parser;
use biir::tape::TapeError;

fn run_source(src: &str, input: &[u8], mode: OutputMode) -> (Vec<u8>, Result<(), RuntimeError>) {
    let mut program = Parser::parse(src).unwrap();
    let mut engine = Interpreter::new();
    let mut output = Vec::new();
    let mut next_input = 0;
    loop {
        match engine.step(&mut program, mode) {
            Ok(Action::Halt) => return (output, Ok(())),
            Ok(Action::Continue) => {}
            Ok(Action::Byte(b)) => output.push(b),
            Ok(Action::Text(t)) | Ok(Action::Dump(t)) => output.extend_from_slice(t.as_bytes()),
            Ok(Action::NeedInput) => {
                let byte = input.get(next_input).copied();
                next_input += 1;
                if let Err(e) = engine.supply_input(&mut program, byte) {
                    return (output, Err(e));
                }
            }
            Err(e) => return (output, Err(e)),
        }
    }
}

#[test]
fn test_basic_io() {
    let (output, result) = run_source(",+++.", &[123], OutputMode::Character);
    result.unwrap();
    assert_eq!(output, vec![126]);
}

#[test]
fn test_loops() {
    let (output, result) = run_source("[-].", &[10], OutputMode::Character);
    result.unwrap();
    assert_eq!(output, vec![0]);
}

#[test]
fn test_tape_print() {
    let (output, result) = run_source(",>,>,!TAPE", &[1, 2, 3], OutputMode::Numeric);
    result.unwrap();
    assert_eq!(String::from_utf8(output).unwrap(), "!TAPE: 1 2 [3]");
}

#[test]
fn clear_loop_zeroes_a_read_cell() {
    let (output, result) = run_source(",[-].", &[10], OutputMode::Character);
    result.unwrap();
    assert_eq!(output, vec![0]);
}

#[test]
fn move_left_at_start_stops_the_run() {
    let (output, result) = run_source("<.", &[], OutputMode::Character);
    assert_eq!(result, Err(RuntimeError::Tape(TapeError::NegativePosition)));
    assert!(output.is_empty());
}

#[test]
fn missing_input_stops_the_run() {
    let (output, result) = run_source(".,.", &[], OutputMode::Character);
    assert_eq!(result, Err(RuntimeError::InputExhausted));
    assert_eq!(output, vec![0]);
}

#[test]
fn numeric_output_writes_decimal() {
    let (output, result) = run_source("++++++++++++.", &[], OutputMode::Numeric);
    result.unwrap();
    assert_eq!(output, b"12".to_vec());
}

#[test]
fn character_output_takes_the_low_byte() {
    let (output, result) = run_source(",[->+<]>.", &[200], OutputMode::Character);
    result.unwrap();
    assert_eq!(output, vec![200]);
    let mut program = Parser::parse("-.").unwrap();
    let mut engine = Interpreter::new();
    assert_eq!(engine.step(&mut program, OutputMode::Character), Ok(Action::Continue));
    assert_eq!(engine.step(&mut program, OutputMode::Character), Ok(Action::Byte(255)));
    assert_eq!(engine.step(&mut program, OutputMode::Character), Ok(Action::Halt));
}

#[test]
fn grouped_and_single_steps_agree() {
    let (a, ra) = run_source("+++++>>>--<!TAPE", &[], OutputMode::Numeric);
    let (b, rb) = run_source("+.+.+.+.+.>.>.>.-.-.<.!TAPE", &[], OutputMode::Numeric);
    ra.unwrap();
    rb.unwrap();
    assert_eq!(String::from_utf8(a).unwrap(), "!TAPE: 5 0 [0] 18446744073709551614");
    let b = String::from_utf8(b).unwrap();
    assert!(b.ends_with("!TAPE: 5 0 [0] 18446744073709551614"));
}

#[test]
fn program_can_run_again_after_reset() {
    let mut program = Parser::parse("+.").unwrap();
    let mut engine = Interpreter::new();
    for expected in [1u8, 2u8] {
        program.reset();
        assert_eq!(engine.step(&mut program, OutputMode::Character), Ok(Action::Continue));
        assert_eq!(engine.step(&mut program, OutputMode::Character), Ok(Action::Byte(expected)));
        assert_eq!(engine.step(&mut program, OutputMode::Character), Ok(Action::Halt));
    }
}
