use biir::parser::instruction::Operation;
use biir::parser::utils::{BracketCountMismatch, Position};
use biir::parser::{LoopError, Parser};

#[test]
fn test_program_begin_loop() {}

#[test]
fn test_operations() {
    assert_eq!(
        Parser::parse("-").unwrap().instructions[0].get_op(),
        &Operation::CellDec
    );
    assert_eq!(
        Parser::parse("+").unwrap().instructions[0].get_op(),
        &Operation::CellInc
    );
    assert_eq!(
        Parser::parse("<").unwrap().instructions[0].get_op(),
        &Operation::TapeLeft
    );
    assert_eq!(
        Parser::parse(">").unwrap().instructions[0].get_op(),
        &Operation::TapeRight
    );
    assert_eq!(
        Parser::parse(",").unwrap().instructions[0].get_op(),
        &Operation::CellWrite
    );
    assert_eq!(
        Parser::parse(".").unwrap().instructions[0].get_op(),
        &Operation::CellRead
    );

    let p = Parser::parse("[]").unwrap();
    assert!(matches!(
        p.instructions[0].get_op(),
        Operation::BeginLoop(_)
    ));
    assert_eq!(p.instructions[1].get_op(), &Operation::EndLoop);

    assert_eq!(
        Parser::parse("!TAPE").unwrap().instructions[0].get_op(),
        &Operation::TapePrint
    );
}

#[test]
fn test_comments() {
    assert_eq!(Parser::parse("").unwrap().instructions.len(), 0);
    assert_eq!(Parser::parse("a").unwrap().instructions.len(), 0);
    assert_eq!(
        Parser::parse("!\nT\nA\nP\nE").unwrap().instructions.len(),
        0
    );
}

#[test]
fn test_check_brackets() {
    assert_eq!(Parser::check_brackets("[]"), Ok(()));
    assert_eq!(Parser::check_brackets("[[]]"), Ok(()));
    assert_eq!(Parser::check_brackets("[[][]]"), Ok(()));
    assert_eq!(
        Parser::check_brackets("["),
        Err(BracketCountMismatch::MoreOpening(Position {
            line_number: 0,
            char_number: 0
        }))
    );
    assert_eq!(
        Parser::check_brackets("]"),
        Err(BracketCountMismatch::MoreClosing(Position {
            line_number: 0,
            char_number: 0
        }))
    );
    assert_eq!(
        Parser::check_brackets("...["),
        Err(BracketCountMismatch::MoreOpening(Position {
            line_number: 0,
            char_number: 3
        }))
    );
    assert_eq!(
        Parser::check_brackets("]["),
        Err(BracketCountMismatch::MoreClosing(Position {
            line_number: 0,
            char_number: 0
        }))
    );
}

#[test]
fn test_instruction_grouping() {
    let p = Parser::parse("<>>---++++").unwrap();

    assert_eq!(p.instructions[0].get_n(), 1);
    assert_eq!(p.instructions[0].get_op(), &Operation::TapeLeft);

    assert_eq!(p.instructions[1].get_n(), 2);
    assert_eq!(p.instructions[1].get_op(), &Operation::TapeRight);

    assert_eq!(p.instructions[2].get_n(), 3);
    assert_eq!(p.instructions[2].get_op(), &Operation::CellDec);

    assert_eq!(p.instructions[3].get_n(), 4);
    assert_eq!(p.instructions[3].get_op(), &Operation::CellInc);
}

#[test]
fn test_instruction_not_grouping() {
    let p = Parser::parse("[[,,..]]").unwrap();

    assert_eq!(p.instructions[0].get_n(), 1);
    assert!(matches!(
        p.instructions[0].get_op(),
        &Operation::BeginLoop(_)
    ));
    assert_eq!(p.instructions[1].get_n(), 1);
    assert!(matches!(
        p.instructions[1].get_op(),
        &Operation::BeginLoop(_)
    ));

    assert_eq!(p.instructions[2].get_n(), 1);
    assert_eq!(p.instructions[2].get_op(), &Operation::CellWrite);
    assert_eq!(p.instructions[3].get_n(), 1);
    assert_eq!(p.instructions[3].get_op(), &Operation::CellWrite);
    assert_eq!(p.instructions[4].get_n(), 1);
    assert_eq!(p.instructions[4].get_op(), &Operation::CellRead);
    assert_eq!(p.instructions[5].get_n(), 1);
    assert_eq!(p.instructions[5].get_op(), &Operation::CellRead);
}

#[test]
fn test_loop_parsing() {
    let p = Parser::parse("[-]").unwrap();
    assert_eq!(p.instructions[0].get_n(), 1);
    assert_eq!(p.instructions[0].get_op(), &Operation::BeginLoop(Some(2)));

    assert_eq!(p.instructions[2].get_n(), 1);
    assert_eq!(p.instructions[2].get_op(), &Operation::EndLoop);
}

#[test]
fn test_instruction_positioning() {
    assert_eq!(
        Parser::parse(" .").unwrap().instructions[0].get_position(),
        &Position {
            line_number: 0,
            char_number: 1
        }
    );
    assert_eq!(
        Parser::parse("\n.").unwrap().instructions[0].get_position(),
        &Position {
            line_number: 1,
            char_number: 0
        }
    );
    let p = Parser::parse("\n+-\n-+").unwrap();
    assert_eq!(
        p.instructions[0].get_position(),
        &Position {
            line_number: 1,
            char_number: 0
        }
    );
    assert_eq!(
        p.instructions[1].get_position(),
        &Position {
            line_number: 1,
            char_number: 1
        }
    );
    assert_eq!(
        p.instructions[2].get_position(),
        &Position {
            line_number: 2,
            char_number: 0
        }
    );
    assert_eq!(
        p.instructions[3].get_position(),
        &Position {
            line_number: 2,
            char_number: 1
        }
    );
}

#[test]
fn test_closing_bracket_finder() {
    let parser = Parser::new();
    assert_eq!(parser.find_closing_bracket(0, "[]"), Ok(1));
    assert_eq!(parser.find_closing_bracket(1, "[]"), Err(()));
    assert_eq!(parser.find_closing_bracket(1, "[[[]]]"), Ok(4));
    assert_eq!(parser.find_closing_bracket(0, "[[][]]"), Ok(5));
}

#[test]
fn unmatched_opening_fails_at_its_position() {
    assert_eq!(
        Parser::parse("[").unwrap_err(),
        BracketCountMismatch::MoreOpening(Position { line_number: 0, char_number: 0 })
    );
}

#[test]
fn unmatched_closing_fails_at_its_position() {
    assert_eq!(
        Parser::parse("]").unwrap_err(),
        BracketCountMismatch::MoreClosing(Position { line_number: 0, char_number: 0 })
    );
}

#[test]
fn leftmost_unclosed_opening_is_reported() {
    assert_eq!(
        Parser::parse("[[").unwrap_err(),
        BracketCountMismatch::MoreOpening(Position { line_number: 0, char_number: 0 })
    );
    assert_eq!(
        Parser::check_brackets("[[]\r\n[+"),
        Err(BracketCountMismatch::MoreOpening(Position { line_number: 0, char_number: 0 }))
    );
    assert_eq!(
        Parser::parse("[]\n [[]").unwrap_err(),
        BracketCountMismatch::MoreOpening(Position { line_number: 1, char_number: 1 })
    );
    assert_eq!(
        Parser::parse("[[]").unwrap_err(),
        BracketCountMismatch::MoreOpening(Position { line_number: 0, char_number: 0 })
    );
}

#[test]
fn first_unmatched_closing_is_reported() {
    assert_eq!(
        Parser::parse("[]]\n]").unwrap_err(),
        BracketCountMismatch::MoreClosing(Position { line_number: 0, char_number: 2 })
    );
}

#[test]
fn line_endings_count_once() {
    let p = Parser::parse("\r\n+\r-\n\n[]").unwrap();
    assert_eq!(p.instructions[0].pos, Position { line_number: 1, char_number: 0 });
    assert_eq!(p.instructions[1].pos, Position { line_number: 2, char_number: 0 });
    assert_eq!(p.instructions[2].pos, Position { line_number: 4, char_number: 0 });
    assert_eq!(
        Parser::check_brackets("\r\r]"),
        Err(BracketCountMismatch::MoreClosing(Position { line_number: 2, char_number: 0 }))
    );
}

#[test]
fn multibyte_characters_are_one_column() {
    let p = Parser::parse("é😀+").unwrap();
    assert_eq!(p.instructions[0].pos, Position { line_number: 0, char_number: 2 });
}

#[test]
fn tape_marker_takes_five_columns() {
    let p = Parser::parse("!TAPE+ !TAP+").unwrap();
    assert_eq!(p.instructions.len(), 3);
    assert_eq!(p.instructions[0].op, Operation::TapePrint);
    assert_eq!(p.instructions[1].pos, Position { line_number: 0, char_number: 5 });
    assert_eq!(p.instructions[2].pos, Position { line_number: 0, char_number: 11 });
}

#[test]
fn run_of_one_character_is_one_instruction() {
    let p = Parser::parse(">>>>>>>").unwrap();
    assert_eq!(p.instructions.len(), 1);
    assert_eq!(p.instructions[0].n, 7);
    assert_eq!(p.instructions[0].op, Operation::TapeRight);
}

#[test]
fn nested_loops_are_resolved() {
    let p = Parser::parse("[[]+[]]").unwrap();
    assert_eq!(p.instructions[0].op, Operation::BeginLoop(Some(6)));
    assert_eq!(p.instructions[1].op, Operation::BeginLoop(Some(2)));
    assert_eq!(p.instructions[4].op, Operation::BeginLoop(Some(5)));
}

#[test]
fn source_loops_enter_and_leave() {
    let mut parser = Parser::new();
    assert_eq!(parser.enter_loop("[+]"), Ok(()));
    assert_eq!(parser.program_counter, 2);
    assert_eq!(parser.leave_loop(), Err(LoopError::NoOpeningBracket));
    parser.tape.inc(1);
    parser.program_counter = 0;
    assert_eq!(parser.enter_loop("[+]"), Ok(()));
    assert_eq!(parser.stack, vec![0]);
    parser.program_counter = 2;
    assert_eq!(parser.leave_loop(), Ok(()));
    assert_eq!(parser.program_counter, 0);
    parser.tape.dec(1);
    assert_eq!(parser.leave_loop(), Ok(()));
    assert!(parser.stack.is_empty());
    assert_eq!(parser.enter_loop("[+"), Err(LoopError::NoClosingBracket));
}

#[test]
fn source_comma_reads_a_byte() {
    let mut parser = Parser::new();
    assert_eq!(parser.handle_comma(Some(42)), Ok(()));
    assert_eq!(parser.tape.current_value, 42);
    assert!(parser.handle_comma(None).is_err());
    assert_eq!(parser.tape.current_value, 42);
}

use biir::interpreter::Action;
use biir::parser::SourceError;

fn run_text(src: &str, input: &[u8], numerical_mode: bool, debug_mode: bool) -> (Vec<u8>, Result<(), SourceError>) {
    let mut parser = Parser::new();
    let mut output = Vec::new();
    let mut next_input = 0;
    loop {
        match parser.execute_step(src, numerical_mode, debug_mode) {
            Ok(Action::Halt) => return (output, Ok(())),
            Ok(Action::Continue) => {}
            Ok(Action::Byte(b)) => output.push(b),
            Ok(Action::Text(t)) | Ok(Action::Dump(t)) => output.extend_from_slice(t.as_bytes()),
            Ok(Action::NeedInput) => {
                let byte = input.get(next_input).copied();
                next_input += 1;
                if let Err(e) = parser.handle_comma(byte) {
                    return (output, Err(SourceError::Runtime(e)));
                }
            }
            Err(e) => return (output, Err(e)),
        }
    }
}

#[test]
fn source_text_runs_directly() {
    let (output, result) = run_text(",[->++<]>.", &[21], false, false);
    result.unwrap();
    assert_eq!(output, vec![42]);
    let (output, result) = run_text("+++.", &[], true, false);
    result.unwrap();
    assert_eq!(output, b"3\n".to_vec());
}

#[test]
fn source_text_tape_dump_only_in_debug_mode() {
    let (output, result) = run_text("+>++!TAPE", &[], true, true);
    result.unwrap();
    assert_eq!(String::from_utf8(output).unwrap(), "!TAPE: 1 [2]\n");
    let (output, result) = run_text("+>++!TAPE", &[], true, false);
    result.unwrap();
    assert!(output.is_empty());
}

#[test]
fn source_text_errors() {
    let (_, result) = run_text("+[", &[], false, false);
    result.unwrap();
    let (_, result) = run_text("[", &[], false, false);
    assert_eq!(result, Err(SourceError::Loop(LoopError::NoClosingBracket)));
    let (_, result) = run_text("]", &[], false, false);
    assert_eq!(result, Err(SourceError::Loop(LoopError::NoOpeningBracket)));
    let (_, result) = run_text("<", &[], false, false);
    assert!(matches!(result, Err(SourceError::Runtime(_))));
    let (_, result) = run_text(",", &[], false, false);
    assert!(matches!(result, Err(SourceError::Runtime(_))));
}
