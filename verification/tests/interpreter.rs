use brain_rust::instruction::Instruction;
use brain_rust::interactive::Interactive;
use brain_rust::parser::{Lexer, ParseError, Parser, ParserMode};
use brain_rust::program::{Program, RunStatus, INITIAL_TAPE_LEN};
use brain_rust::term::Vec2;
use brain_rust::BrainRust;

const FUEL: usize = 1_000_000;

fn program_for(src: &[u8], mode: ParserMode) -> Program {
    Program::new(Parser::parse(Lexer::new(src), mode).unwrap())
}

#[test]
fn fresh_tape_has_five_zeroed_cells_and_pointer_at_zero() {
    let program = Program::new(Vec::new());
    assert_eq!(INITIAL_TAPE_LEN, 5);
    assert_eq!(program.cells(), &[0, 0, 0, 0, 0]);
    assert_eq!(program.pointer(), 0);
}

#[test]
fn two_increments_then_output_emit_byte_two() {
    let mut program = program_for(b"++.", ParserMode::Normal);
    let mut out: Vec<u8> = Vec::new();
    assert_eq!(program.run(&mut out, FUEL), RunStatus::Halted);
    assert_eq!(out, vec![2]);
}

#[test]
fn input_byte_is_stored_verbatim_and_echoed() {
    let mut program = program_for(b",.", ParserMode::Normal);
    let mut out: Vec<u8> = Vec::new();
    assert_eq!(program.run(&mut out, FUEL), RunStatus::NeedInput);
    program.provide_input(65);
    assert_eq!(program.run(&mut out, FUEL), RunStatus::Halted);
    assert_eq!(out, vec![65]);
}

#[test]
fn increment_wraps_at_the_cell_width() {
    let mut program = Program::new(vec![
        Instruction::Increment(254),
        Instruction::Increment(2),
        Instruction::Output,
    ]);
    let mut out: Vec<u8> = Vec::new();
    assert_eq!(program.run(&mut out, FUEL), RunStatus::Halted);
    assert_eq!(out, vec![0]);
}

#[test]
fn large_counted_increment_wraps_modulo_two_fifty_six() {
    let mut program = Program::new(vec![Instruction::Increment(300), Instruction::Output]);
    let mut out: Vec<u8> = Vec::new();
    assert_eq!(program.run(&mut out, FUEL), RunStatus::Halted);
    assert_eq!(out, vec![44]);
}

#[test]
fn decrement_from_zero_wraps_to_two_fifty_five() {
    let mut program = program_for(b"-.", ParserMode::Normal);
    let mut out: Vec<u8> = Vec::new();
    assert_eq!(program.run(&mut out, FUEL), RunStatus::Halted);
    assert_eq!(out, vec![255]);
}

#[test]
fn copy_loop_moves_the_value_one_cell_right() {
    let mut program = program_for(b"+[>+<-]", ParserMode::Normal);
    let mut out: Vec<u8> = Vec::new();
    assert_eq!(program.run(&mut out, FUEL), RunStatus::Halted);
    assert_eq!(program.cells()[0], 0);
    assert_eq!(program.cells()[1], 1);
    assert_eq!(out, Vec::<u8>::new());
}

#[test]
fn shift_right_past_the_bound_grows_to_exactly_pointer_plus_one() {
    let mut program = program_for(b">>>>>>>", ParserMode::Normal);
    let mut out: Vec<u8> = Vec::new();
    assert_eq!(program.run(&mut out, FUEL), RunStatus::Halted);
    assert_eq!(program.pointer(), 7);
    assert_eq!(program.cells(), &[0, 0, 0, 0, 0, 0, 0, 0]);
}

#[test]
fn shift_right_inside_the_bound_does_not_grow() {
    let mut program = program_for(b">>>>", ParserMode::Normal);
    let mut out: Vec<u8> = Vec::new();
    assert_eq!(program.run(&mut out, FUEL), RunStatus::Halted);
    assert_eq!(program.pointer(), 4);
    assert_eq!(program.cells().len(), 5);
}

#[test]
fn growth_preserves_existing_cell_contents() {
    let mut program = program_for(b"++>>>>>><<<<<<.", ParserMode::Normal);
    let mut out: Vec<u8> = Vec::new();
    assert_eq!(program.run(&mut out, FUEL), RunStatus::Halted);
    assert_eq!(out, vec![2]);
    assert_eq!(program.cells().len(), 7);
}

#[test]
fn shift_left_past_the_edge_clamps_the_pointer_to_zero() {
    let mut program = program_for(b"<", ParserMode::Normal);
    let mut out: Vec<u8> = Vec::new();
    assert_eq!(program.run(&mut out, FUEL), RunStatus::Halted);
    assert_eq!(program.pointer(), 0);

    let mut program = program_for(b"><<", ParserMode::Normal);
    assert_eq!(program.run(&mut out, FUEL), RunStatus::Halted);
    assert_eq!(program.pointer(), 0);
}

#[test]
fn clear_command_zeroes_every_cell_and_emits_the_reset_byte() {
    let mut program = program_for(b"++>+++#clear;", ParserMode::Command);
    let mut out: Vec<u8> = Vec::new();
    assert_eq!(program.run(&mut out, FUEL), RunStatus::Halted);
    assert_eq!(out, vec![b'\r']);
    assert_eq!(program.cells(), &[0, 0, 0, 0, 0]);
}

#[test]
fn command_names_are_compared_blind_to_ascii_case() {
    let mut program = program_for(b"#CLEAR;", ParserMode::Command);
    let mut out: Vec<u8> = Vec::new();
    assert_eq!(program.run(&mut out, FUEL), RunStatus::Halted);
    assert_eq!(out, vec![b'\r']);

    let mut program = program_for(b"#InClUdE x;", ParserMode::Command);
    assert_eq!(
        program.run(&mut out, FUEL),
        RunStatus::NeedFiles(vec![b"x".to_vec()])
    );
}

#[test]
fn include_pauses_with_the_file_arguments_in_order() {
    let mut program = program_for(b"#include a.bf b.bf;", ParserMode::Command);
    let mut out: Vec<u8> = Vec::new();
    assert_eq!(
        program.run(&mut out, FUEL),
        RunStatus::NeedFiles(vec![b"a.bf".to_vec(), b"b.bf".to_vec()])
    );
}

#[test]
fn include_appends_both_files_in_argument_order() {
    // the first file leaves the cell at one; the second only clears it when
    // it runs after the first, so the order is observable
    let mut program = program_for(b"#include a.bf b.bf;", ParserMode::Command);
    let mut out: Vec<u8> = Vec::new();
    assert_eq!(program.run(&mut out, FUEL), RunStatus::NeedFiles(vec![
        b"a.bf".to_vec(),
        b"b.bf".to_vec(),
    ]));
    program
        .provide_files(vec![Some(b"+".to_vec()), Some(b"[-]".to_vec())])
        .unwrap();
    assert_eq!(program.run(&mut out, FUEL), RunStatus::Halted);
    assert_eq!(program.cells()[0], 0);

    let mut program = program_for(b"#include a.bf b.bf;", ParserMode::Command);
    let mut out: Vec<u8> = Vec::new();
    assert_eq!(program.run(&mut out, FUEL), RunStatus::NeedFiles(vec![
        b"a.bf".to_vec(),
        b"b.bf".to_vec(),
    ]));
    program
        .provide_files(vec![Some(b"[-]".to_vec()), Some(b"+".to_vec())])
        .unwrap();
    assert_eq!(program.run(&mut out, FUEL), RunStatus::Halted);
    assert_eq!(program.cells()[0], 1);
}

#[test]
fn unreadable_included_files_are_skipped_not_fatal() {
    let mut program = program_for(b"#include a.bf b.bf;", ParserMode::Command);
    let mut out: Vec<u8> = Vec::new();
    assert_eq!(program.run(&mut out, FUEL), RunStatus::NeedFiles(vec![
        b"a.bf".to_vec(),
        b"b.bf".to_vec(),
    ]));
    program
        .provide_files(vec![None, Some(b"++".to_vec())])
        .unwrap();
    assert_eq!(program.run(&mut out, FUEL), RunStatus::Halted);
    assert_eq!(program.cells()[0], 2);
}

#[test]
fn an_included_file_that_fails_to_parse_changes_nothing() {
    let mut program = program_for(b"#include a.bf;", ParserMode::Command);
    let mut out: Vec<u8> = Vec::new();
    assert_eq!(
        program.run(&mut out, FUEL),
        RunStatus::NeedFiles(vec![b"a.bf".to_vec()])
    );
    assert_eq!(
        program.provide_files(vec![Some(b"[".to_vec())]),
        Err(ParseError::UnmatchedOpen)
    );
    // the machine still stands at the include command
    assert_eq!(
        program.run(&mut out, FUEL),
        RunStatus::NeedFiles(vec![b"a.bf".to_vec()])
    );
}

#[test]
fn unknown_commands_are_fatal_with_their_full_text() {
    let mut program = program_for(b"#frobnicate a b;", ParserMode::Command);
    let mut out: Vec<u8> = Vec::new();
    assert_eq!(
        program.run(&mut out, FUEL),
        RunStatus::Unsupported(b"frobnicate a b".to_vec())
    );
}

#[test]
fn an_empty_command_is_unsupported() {
    let mut program = program_for(b"#;", ParserMode::Command);
    let mut out: Vec<u8> = Vec::new();
    assert_eq!(program.run(&mut out, FUEL), RunStatus::Unsupported(b"".to_vec()));
}

#[test]
fn spent_fuel_reports_running_and_resumes_cleanly() {
    // three distinct instructions, since a run of one operator collapses
    let mut program = program_for(b"+-+", ParserMode::Normal);
    let mut out: Vec<u8> = Vec::new();
    assert_eq!(program.run(&mut out, 2), RunStatus::Running);
    assert_eq!(program.run(&mut out, FUEL), RunStatus::Halted);
    assert_eq!(program.cells()[0], 1);
}

#[test]
fn running_a_halted_program_again_changes_nothing() {
    let mut program = program_for(b"+.", ParserMode::Normal);
    let mut out: Vec<u8> = Vec::new();
    assert_eq!(program.run(&mut out, FUEL), RunStatus::Halted);
    assert_eq!(program.run(&mut out, FUEL), RunStatus::Halted);
    assert_eq!(out, vec![1]);
}

#[test]
fn appended_instructions_resume_from_the_halt_point() {
    let mut program = program_for(b"+.", ParserMode::Command);
    let mut out: Vec<u8> = Vec::new();
    assert_eq!(program.run(&mut out, FUEL), RunStatus::Halted);
    let mut more = Parser::parse(Lexer::new(b"+."), ParserMode::Command).unwrap();
    program.append_instructions(&mut more);
    assert!(more.is_empty());
    assert_eq!(program.run(&mut out, FUEL), RunStatus::Halted);
    assert_eq!(out, vec![1, 2]);
}

#[test]
fn appended_loops_are_rebased_past_the_existing_program() {
    let mut program = program_for(b"++", ParserMode::Normal);
    let mut out: Vec<u8> = Vec::new();
    assert_eq!(program.run(&mut out, FUEL), RunStatus::Halted);
    let mut more = Parser::parse(Lexer::new(b"[-]"), ParserMode::Normal).unwrap();
    program.append_instructions(&mut more);
    assert_eq!(program.run(&mut out, FUEL), RunStatus::Halted);
    assert_eq!(program.cells()[0], 0);
}

#[test]
fn an_unaddressable_shift_stops_with_tape_overflow() {
    let mut program = Program::new(vec![Instruction::ShiftRight(usize::MAX)]);
    let mut out: Vec<u8> = Vec::new();
    assert_eq!(program.run(&mut out, FUEL), RunStatus::TapeOverflow);
}

#[test]
fn interactive_session_starts_empty() {
    let interactive = BrainRust::interactive();
    assert_eq!(interactive.output, Vec::<u8>::new());
    assert!(interactive.inputs.is_empty());
    assert_eq!(interactive.program.cells(), &[0, 0, 0, 0, 0]);
    assert_eq!(interactive.program.pointer(), 0);
}

#[test]
fn interactive_wraps_the_given_program() {
    let program = program_for(b"+", ParserMode::Normal);
    let session = Interactive::new(program);
    assert!(session.output.is_empty());
    assert!(session.inputs.is_empty());
}

#[test]
fn vec2_keeps_its_coordinates() {
    let v = Vec2::new(3, 9);
    assert_eq!(v.x, 3);
    assert_eq!(v.y, 9);
}
