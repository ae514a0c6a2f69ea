use brain_rust::instruction::Instruction;
use brain_rust::parser::{Lexer, ParseError, Parser, ParserMode};

fn parse(src: &[u8], mode: ParserMode) -> Result<Vec<Instruction>, ParseError> {
    Parser::parse(Lexer::new(src), mode)
}

#[test]
fn run_of_identical_operators_collapses_to_one_instruction() {
    assert_eq!(
        parse(b"++++", ParserMode::Normal).unwrap(),
        vec![Instruction::Increment(4)]
    );
    assert_eq!(
        parse(b">>>", ParserMode::Normal).unwrap(),
        vec![Instruction::ShiftRight(3)]
    );
    assert_eq!(
        parse(b"<<", ParserMode::Normal).unwrap(),
        vec![Instruction::ShiftLeft(2)]
    );
    assert_eq!(
        parse(b"--", ParserMode::Normal).unwrap(),
        vec![Instruction::Decrement(2)]
    );
    assert_eq!(
        parse(b"+", ParserMode::Normal).unwrap(),
        vec![Instruction::Increment(1)]
    );
}

#[test]
fn comment_bytes_are_transparent_inside_a_run() {
    assert_eq!(
        parse(b"+ comment +", ParserMode::Normal).unwrap(),
        vec![Instruction::Increment(2)]
    );
}

#[test]
fn a_different_operator_ends_a_run() {
    assert_eq!(
        parse(b"++--", ParserMode::Normal).unwrap(),
        vec![Instruction::Increment(2), Instruction::Decrement(2)]
    );
}

#[test]
fn the_command_marker_ends_a_run_even_in_normal_mode() {
    assert_eq!(
        parse(b"+#+", ParserMode::Normal).unwrap(),
        vec![Instruction::Increment(1), Instruction::Increment(1)]
    );
}

#[test]
fn output_and_input_are_never_collapsed() {
    assert_eq!(
        parse(b"..", ParserMode::Normal).unwrap(),
        vec![Instruction::Output, Instruction::Output]
    );
    assert_eq!(
        parse(b",,", ParserMode::Normal).unwrap(),
        vec![Instruction::Input, Instruction::Input]
    );
}

#[test]
fn loop_targets_point_past_the_end_and_back_to_the_start() {
    assert_eq!(
        parse(b"[-]", ParserMode::Normal).unwrap(),
        vec![
            Instruction::StartLoop(Some(3)),
            Instruction::Decrement(1),
            Instruction::EndLoop(0),
        ]
    );
}

#[test]
fn nested_loops_resolve_to_their_own_brackets() {
    assert_eq!(
        parse(b"[[]]", ParserMode::Normal).unwrap(),
        vec![
            Instruction::StartLoop(Some(4)),
            Instruction::StartLoop(Some(3)),
            Instruction::EndLoop(1),
            Instruction::EndLoop(0),
        ]
    );
}

#[test]
fn copy_loop_program_parses_with_resolved_targets() {
    assert_eq!(
        parse(b"+[>+<-]", ParserMode::Normal).unwrap(),
        vec![
            Instruction::Increment(1),
            Instruction::StartLoop(Some(7)),
            Instruction::ShiftRight(1),
            Instruction::Increment(1),
            Instruction::ShiftLeft(1),
            Instruction::Decrement(1),
            Instruction::EndLoop(1),
        ]
    );
}

#[test]
fn unmatched_open_bracket_fails_structurally() {
    assert_eq!(
        parse(b"[", ParserMode::Normal),
        Err(ParseError::UnmatchedOpen)
    );
    assert_eq!(
        parse(b"+[+", ParserMode::Normal),
        Err(ParseError::UnmatchedOpen)
    );
}

#[test]
fn unmatched_close_bracket_fails_structurally() {
    assert_eq!(
        parse(b"]", ParserMode::Normal),
        Err(ParseError::UnmatchedClose)
    );
    assert_eq!(
        parse(b"][", ParserMode::Normal),
        Err(ParseError::UnmatchedClose)
    );
}

#[test]
fn command_payload_is_captured_verbatim_until_the_terminator() {
    assert_eq!(
        parse(b"#clear;", ParserMode::Command).unwrap(),
        vec![Instruction::Command(b"clear".to_vec())]
    );
    assert_eq!(
        parse(b"#include a.bf b.bf;+", ParserMode::Command).unwrap(),
        vec![
            Instruction::Command(b"include a.bf b.bf".to_vec()),
            Instruction::Increment(1),
        ]
    );
}

#[test]
fn command_payload_swallows_operator_bytes_raw() {
    assert_eq!(
        parse(b"#x[+];", ParserMode::Command).unwrap(),
        vec![Instruction::Command(b"x[+]".to_vec())]
    );
}

#[test]
fn unterminated_command_payload_runs_to_the_end_of_input() {
    assert_eq!(
        parse(b"#abc", ParserMode::Command).unwrap(),
        vec![Instruction::Command(b"abc".to_vec())]
    );
}

#[test]
fn normal_mode_ignores_the_command_marker() {
    assert_eq!(parse(b"#clear;", ParserMode::Normal).unwrap(), vec![]);
}
