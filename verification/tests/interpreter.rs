use brainfuck::assembler::{tokenize_lines, AsmError, AsmErrorKind, Warning};
use brainfuck::executor::{run_brainfuck, Fault, FaultKind, RunStatus, StepResult};
use brainfuck::token::{check_program, Token};

fn assemble(src: &[&str]) -> (Result<Vec<Token>, AsmError>, Vec<Warning>) {
    let lines: Vec<String> = src.iter().map(|s| s.to_string()).collect();
    tokenize_lines(lines)
}

fn run(src: &[&str], strict: bool, input: &[u8]) -> (RunStatus, Vec<u8>) {
    let (res, _) = assemble(src);
    let toks = res.expect("assembly should succeed");
    run_brainfuck(&toks, strict, &input.to_vec(), 10_000_000)
}

#[test]
fn token_inst_starts_unresolved() {
    let t = Token::inst('+');
    assert_eq!(t.opcode, '+');
    assert_eq!(t.jump_addr, None);
    assert_eq!(t.line, 0);
}

#[test]
fn empty_input_assembles_to_empty_stream() {
    let (res, warns) = assemble(&[]);
    assert_eq!(res.unwrap().len(), 0);
    assert_eq!(warns.len(), 0);
}

#[test]
fn simple_loop_brackets_are_symmetric() {
    let (res, _) = assemble(&["[+]"]);
    let toks = res.unwrap();
    assert_eq!(toks.len(), 3);
    assert_eq!(toks[0].opcode, '[');
    assert_eq!(toks[0].jump_addr, Some(2));
    assert_eq!(toks[1].opcode, '+');
    assert_eq!(toks[1].jump_addr, None);
    assert_eq!(toks[2].opcode, ']');
    assert_eq!(toks[2].jump_addr, Some(0));
}

#[test]
fn nested_loops_pair_last_open_first_close() {
    let (res, _) = assemble(&["[[]]"]);
    let toks = res.unwrap();
    assert_eq!(toks[0].jump_addr, Some(3));
    assert_eq!(toks[1].jump_addr, Some(2));
    assert_eq!(toks[2].jump_addr, Some(1));
    assert_eq!(toks[3].jump_addr, Some(0));
}

#[test]
fn tokens_record_their_source_lines() {
    let (res, _) = assemble(&["+", "[", "]"]);
    let toks = res.unwrap();
    assert_eq!(toks[0].line, 1);
    assert_eq!(toks[1].line, 2);
    assert_eq!(toks[2].line, 3);
}

#[test]
fn lone_close_is_an_unmatched_close_error() {
    let (res, _) = assemble(&["]"]);
    let e = res.unwrap_err();
    assert_eq!(e.kind, AsmErrorKind::UnmatchedClose);
    assert_eq!(e.line, 1);
}

#[test]
fn lone_open_is_an_unmatched_open_error() {
    let (res, _) = assemble(&["["]);
    let e = res.unwrap_err();
    assert_eq!(e.kind, AsmErrorKind::UnmatchedOpen);
    assert_eq!(e.line, 1);
}

#[test]
fn unmatched_close_names_its_line() {
    let (res, _) = assemble(&["+[+]", "+]+"]);
    let e = res.unwrap_err();
    assert_eq!(e.kind, AsmErrorKind::UnmatchedClose);
    assert_eq!(e.line, 2);
}

#[test]
fn assembling_twice_gives_identical_streams() {
    let src = &["++[>+<-]", "# done", ".>[-]."];
    let (res1, warns1) = assemble(src);
    let (res2, warns2) = assemble(src);
    assert_eq!(res1.unwrap(), res2.unwrap());
    assert_eq!(warns1, warns2);
}

#[test]
fn comment_cuts_off_rest_of_line() {
    let (res, warns) = assemble(&["+++ # this is ignored +++"]);
    let toks = res.unwrap();
    assert_eq!(toks.len(), 3);
    assert!(toks.iter().all(|t| t.opcode == '+'));
    assert_eq!(warns.len(), 0);
}

#[test]
fn all_three_comment_starters_work() {
    for c in ["#", "/", ";"] {
        let line = format!("++ {} ++", c);
        let (res, _) = assemble(&[line.as_str()]);
        assert_eq!(res.unwrap().len(), 2);
    }
}

#[test]
fn unrecognized_character_warns_and_is_skipped() {
    let (res, warns) = assemble(&["+a+"]);
    assert_eq!(res.unwrap().len(), 2);
    assert_eq!(warns, vec![Warning { line: 1, ch: 'a' }]);
}

#[test]
fn whitespace_is_skipped_silently() {
    let (res, warns) = assemble(&["+ +\t+"]);
    assert_eq!(res.unwrap().len(), 3);
    assert_eq!(warns.len(), 0);
}

#[test]
fn hello_world_prints_h_first() {
    let src =
        &["++++++++[>++++[>++>+++>+++>+<<<<-]>+>+>->>+[<]<-]>>.>---.+++++++..+++."];
    let (status, out) = run(src, false, &[]);
    assert_eq!(status, RunStatus::Done);
    assert!(!out.is_empty());
    assert_eq!(out[0], b'H');
}

#[test]
fn echo_copies_one_input_byte() {
    let (status, out) = run(&[",."], false, &[65]);
    assert_eq!(status, RunStatus::Done);
    assert_eq!(out, vec![65u8]);
}

#[test]
fn strict_decrement_of_zero_is_cell_underflow() {
    let (status, out) = run(&["-"], true, &[]);
    assert_eq!(
        status,
        RunStatus::Faulted(Fault { kind: FaultKind::CellUnderflow, line: 1 })
    );
    assert_eq!(out.len(), 0);
}

#[test]
fn permissive_decrement_of_zero_wraps_to_255() {
    let (status, out) = run(&["-"], false, &[]);
    assert_eq!(status, RunStatus::Done);
    assert_eq!(out.len(), 0);
    let (status2, out2) = run(&["-."], false, &[]);
    assert_eq!(status2, RunStatus::Done);
    assert_eq!(out2, vec![255u8]);
}

#[test]
fn permissive_increment_of_255_wraps_to_zero() {
    let mut src = "+".repeat(256);
    src.push('.');
    let (status, out) = run(&[src.as_str()], false, &[]);
    assert_eq!(status, RunStatus::Done);
    assert_eq!(out, vec![0u8]);
}

#[test]
fn strict_increment_of_255_is_cell_overflow() {
    let src = "+".repeat(256);
    let (status, out) = run(&[src.as_str()], true, &[]);
    assert_eq!(
        status,
        RunStatus::Faulted(Fault { kind: FaultKind::CellOverflow, line: 1 })
    );
    assert_eq!(out.len(), 0);
}

#[test]
fn strict_move_left_from_zero_is_pointer_underflow() {
    let (status, _) = run(&["<"], true, &[]);
    assert_eq!(
        status,
        RunStatus::Faulted(Fault { kind: FaultKind::PointerUnderflow, line: 1 })
    );
}

#[test]
fn permissive_move_left_wraps_to_last_cell() {
    let (status, out) = run(&["<."], false, &[]);
    assert_eq!(status, RunStatus::Done);
    assert_eq!(out, vec![0u8]);
}

#[test]
fn strict_move_right_off_the_end_is_pointer_overflow() {
    let src = ">".repeat(32768);
    let (status, _) = run(&[src.as_str()], true, &[]);
    assert_eq!(
        status,
        RunStatus::Faulted(Fault { kind: FaultKind::PointerOverflow, line: 1 })
    );
}

#[test]
fn permissive_move_right_off_the_end_wraps_to_cell_zero() {
    let src = ">".repeat(32768);
    let (status, _) = run(&[src.as_str()], false, &[]);
    assert_eq!(status, RunStatus::Done);
}

#[test]
fn strict_fault_stops_before_later_output() {
    let (status, out) = run(&["-."], true, &[]);
    assert_eq!(
        status,
        RunStatus::Faulted(Fault { kind: FaultKind::CellUnderflow, line: 1 })
    );
    assert_eq!(out.len(), 0);
}

#[test]
fn exhausted_input_is_an_input_failure() {
    let (status, out) = run(&[",", ","], false, &[65]);
    assert_eq!(
        status,
        RunStatus::Faulted(Fault { kind: FaultKind::InputFailure, line: 2 })
    );
    assert_eq!(out.len(), 0);
}

#[test]
fn endless_loop_runs_out_of_steps() {
    let (res, _) = assemble(&["+[]"]);
    let toks = res.unwrap();
    let (status, out) = run_brainfuck(&toks, false, &Vec::new(), 1000);
    assert_eq!(status, RunStatus::OutOfSteps);
    assert_eq!(out.len(), 0);
}

#[test]
fn empty_stream_halts_at_once() {
    let (status, out) = run(&[], false, &[]);
    assert_eq!(status, RunStatus::Done);
    assert_eq!(out.len(), 0);
}

#[test]
fn loop_skips_body_when_cell_is_zero() {
    let (status, out) = run(&["[.]"], false, &[]);
    assert_eq!(status, RunStatus::Done);
    assert_eq!(out.len(), 0);
}

#[test]
fn loop_body_repeats_until_cell_is_zero() {
    let (status, out) = run(&["+++[.-]"], false, &[]);
    assert_eq!(status, RunStatus::Done);
    assert_eq!(out, vec![3u8, 2, 1]);
}

#[test]
fn check_program_accepts_assembled_streams() {
    let (res, _) = assemble(&["[+[-]]"]);
    assert!(check_program(&res.unwrap()));
}

#[test]
fn check_program_rejects_unresolved_brackets() {
    let toks = vec![Token::inst('[')];
    assert!(!check_program(&toks));
}

#[test]
fn step_advances_and_then_halts() {
    let (res, _) = assemble(&["+."]);
    let toks = res.unwrap();
    let mut m = brainfuck::executor::new_machine();
    assert_eq!(m.tape.len(), 32768);
    assert_eq!(brainfuck::executor::step(&mut m, &toks, false, None), StepResult::Next);
    assert_eq!(m.ip, 1);
    assert_eq!(m.tape[0], 1);
    assert_eq!(brainfuck::executor::step(&mut m, &toks, false, None), StepResult::Out(1));
    assert_eq!(brainfuck::executor::step(&mut m, &toks, false, None), StepResult::Halt);
    assert_eq!(m.ip, 2);
}

#[test]
fn step_reports_need_input_without_a_byte() {
    let (res, _) = assemble(&[","]);
    let toks = res.unwrap();
    let mut m = brainfuck::executor::new_machine();
    assert_eq!(brainfuck::executor::step(&mut m, &toks, false, None), StepResult::NeedInput);
    assert_eq!(m.ip, 0);
    assert_eq!(brainfuck::executor::step(&mut m, &toks, false, Some(7)), StepResult::Next);
    assert_eq!(m.tape[0], 7);
}
