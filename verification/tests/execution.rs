use esolang::instructions::tokenize;
use esolang::semantics::{RunOutcome, StepEvent};
use esolang::tape::Tape;

fn run_program(text: &[u8], inputs: Vec<i8>, fuel: usize) -> (Tape, Vec<i8>, RunOutcome) {
    let mut tape = Tape::new(tokenize(text));
    let (outputs, outcome) = tape.run(&inputs, fuel);
    (tape, outputs, outcome)
}

#[test]
fn three_increments_print_three() {
    let (_, outputs, outcome) = run_program(b"+++.", Vec::new(), 100);
    assert_eq!(outcome, RunOutcome::Halted);
    assert_eq!(outputs, vec![3i8]);
}

#[test]
fn unvisited_cell_prints_zero() {
    let (tape, outputs, outcome) = run_program(b">>>.", Vec::new(), 100);
    assert_eq!(outcome, RunOutcome::Halted);
    assert_eq!(outputs, vec![0i8]);
    assert_eq!(tape.pos(), 3);
}

#[test]
fn move_left_at_origin_stays_at_origin() {
    let (tape, outputs, outcome) = run_program(b"<", Vec::new(), 100);
    assert_eq!(outcome, RunOutcome::Halted);
    assert_eq!(outputs, Vec::<i8>::new());
    assert_eq!(tape.pos(), 0);
}

#[test]
fn lone_loop_end_is_unmatched_loop_exit() {
    let (_, outputs, outcome) = run_program(b"]", Vec::new(), 100);
    assert_eq!(outcome, RunOutcome::UnmatchedLoopExit(0));
    assert_eq!(outputs, Vec::<i8>::new());
}

#[test]
fn loop_end_reports_its_own_index() {
    let (_, _, outcome) = run_program(b"+-]", Vec::new(), 100);
    assert_eq!(outcome, RunOutcome::UnmatchedLoopExit(2));
}

#[test]
fn increment_then_decrement_restores_cell() {
    let (tape, _, outcome) = run_program(b"+-", Vec::new(), 100);
    assert_eq!(outcome, RunOutcome::Halted);
    assert_eq!(tape.current_cell(), 0);

    let (tape, _, outcome) = run_program(b"+++\n+-.", Vec::new(), 100);
    assert_eq!(outcome, RunOutcome::Halted);
    assert_eq!(tape.current_cell(), 3);
}

#[test]
fn balanced_loop_programs_halt_without_error() {
    for text in [&b""[..], &b"[]"[..], &b"[[]]"[..], &b"[][]"[..], &b"[[][]]"[..]] {
        let (_, outputs, outcome) = run_program(text, Vec::new(), 1000);
        assert_eq!(outcome, RunOutcome::Halted);
        assert_eq!(outputs, Vec::<i8>::new());
    }
}

#[test]
fn loop_drains_cell_to_zero() {
    // The loop body repeats while the cell is non-zero, so the decrement
    // runs until the counter reaches zero.
    let (tape, _, outcome) = run_program(b"+++++[-]", Vec::new(), 1000);
    assert_eq!(outcome, RunOutcome::Halted);
    assert_eq!(tape.current_cell(), 0);
}

#[test]
fn loop_body_repeats_while_cell_nonzero() {
    // Each pass moves one unit from cell 0 to cell 1; the loop's stack entry
    // is kept across passes and popped once cell 0 reaches zero.
    let (tape, _, outcome) = run_program(b"++[->+<]", Vec::new(), 1000);
    assert_eq!(outcome, RunOutcome::Halted);
    assert_eq!(tape.current_cell(), 0);
    assert_eq!(tape.cell_at(1), 2);
    assert_eq!(tape.pos(), 0);
}

#[test]
fn loop_end_with_no_open_loop_is_fatal_even_on_nonzero_cell() {
    let (_, _, outcome) = run_program(b"+]", Vec::new(), 100);
    assert_eq!(outcome, RunOutcome::UnmatchedLoopExit(1));
}

#[test]
fn noop_text_runs_inert() {
    let (tape, outputs, outcome) = run_program(b"hello world", Vec::new(), 100);
    assert_eq!(outcome, RunOutcome::Halted);
    assert_eq!(outputs, Vec::<i8>::new());
    assert_eq!(tape.pos(), 0);
    assert_eq!(tape.current_cell(), 0);
    assert_eq!(tape.ip(), 11);
}

#[test]
fn increment_wraps_at_the_top_of_the_range() {
    let text = vec![43u8; 128];
    let (tape, _, outcome) = run_program(&text, Vec::new(), 1000);
    assert_eq!(outcome, RunOutcome::Halted);
    assert_eq!(tape.current_cell(), -128);
}

#[test]
fn decrement_wraps_at_the_bottom_of_the_range() {
    let text = vec![45u8; 129];
    let (tape, _, outcome) = run_program(&text, Vec::new(), 1000);
    assert_eq!(outcome, RunOutcome::Halted);
    assert_eq!(tape.current_cell(), 127);
}

#[test]
fn input_writes_the_current_cell() {
    let (tape, _, outcome) = run_program(b",", vec![5i8], 100);
    assert_eq!(outcome, RunOutcome::Halted);
    assert_eq!(tape.current_cell(), 5);
}

#[test]
fn input_replaces_a_prior_value() {
    let (tape, outputs, outcome) = run_program(b"+++,.", vec![-3i8], 100);
    assert_eq!(outcome, RunOutcome::Halted);
    assert_eq!(tape.current_cell(), -3);
    assert_eq!(outputs, vec![-3i8]);
}

#[test]
fn exhausted_input_is_fatal() {
    let (tape, outputs, outcome) = run_program(b"+.,", Vec::new(), 100);
    assert_eq!(outcome, RunOutcome::InputExhausted);
    assert_eq!(outputs, vec![1i8]);
    assert_eq!(tape.ip(), 2);
}

#[test]
fn out_of_fuel_stops_mid_program() {
    let (tape, outputs, outcome) = run_program(b"++++", Vec::new(), 2);
    assert_eq!(outcome, RunOutcome::OutOfFuel);
    assert_eq!(outputs, Vec::<i8>::new());
    assert_eq!(tape.current_cell(), 2);
    assert_eq!(tape.ip(), 2);
}

#[test]
fn single_steps_report_events() {
    let mut tape = Tape::new(tokenize(b"+.,"));
    assert_eq!(tape.handle_instruction(), StepEvent::Ran);
    assert_eq!(tape.handle_instruction(), StepEvent::Output(1));
    assert_eq!(tape.handle_instruction(), StepEvent::AwaitingInput);
    assert!(tape.awaiting_input());
    tape.provide_input(9);
    assert_eq!(tape.current_cell(), 9);
    assert_eq!(tape.handle_instruction(), StepEvent::Halted);
    assert_eq!(tape.handle_instruction(), StepEvent::Halted);
}

#[test]
fn right_then_left_returns_to_origin() {
    let (tape, _, outcome) = run_program(b"><", Vec::new(), 100);
    assert_eq!(outcome, RunOutcome::Halted);
    assert_eq!(tape.pos(), 0);
}
