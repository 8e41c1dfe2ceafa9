use tapevm::build;
use tapevm::run;
use tapevm::ExecError;

/// Builds and runs, with a budget that covers every terminating test
/// program here.
fn run_ok(source: &[u8], input: &[u8]) -> Vec<u8> {
    let p = build(source).unwrap();
    run(&p, input, 1_000_000).unwrap()
}

#[test]
fn scenario_increment_twice_and_output() {
    assert_eq!(run_ok(b">++.", b""), vec![2u8]);
}

#[test]
fn scenario_echo_one_byte() {
    assert_eq!(run_ok(b",.", b"A"), b"A".to_vec());
}

#[test]
fn scenario_echo_two_bytes_in_order() {
    assert_eq!(run_ok(b",.,.", b"Hi"), b"Hi".to_vec());
}

#[test]
fn scenario_read_increment_print() {
    assert_eq!(run_ok(b",+.", b"A"), b"B".to_vec());
}

#[test]
fn scenario_hello_world() {
    let source = b"++++++++[>++++[>++>+++>+++>+<<<<-]>+>+>->>+[<]<-]>>.>---.+++++++..+++.>>.<-.<.+++.------.--------.>>+.>++.";
    assert_eq!(run_ok(source, b""), b"Hello World!\n".to_vec());
}

#[test]
fn scenario_exhausted_input_leaves_cell_unchanged() {
    // The cell was never written, so the zero it started with is printed.
    assert_eq!(run_ok(b",.", b""), vec![0u8]);
}

#[test]
fn exhausted_input_preserves_earlier_value() {
    // The first read sets the cell; the second finds no input and must
    // leave it alone rather than write a zero.
    assert_eq!(run_ok(b",,.", b"A"), b"A".to_vec());
}

#[test]
fn pointer_wraps_left_from_first_cell() {
    // Read into cell 0, step left onto the last cell, read there, step
    // right back onto cell 0: the first byte must still be there.
    assert_eq!(run_ok(b",<,>.", b"AB"), b"A".to_vec());
}

#[test]
fn pointer_wraps_right_from_last_cell() {
    // A full lap of 30000 steps right returns to the cell read first.
    let mut source = b",".to_vec();
    source.extend(std::iter::repeat(b'>').take(30000));
    source.push(b'.');
    assert_eq!(run_ok(&source, b"Z"), b"Z".to_vec());
}

#[test]
fn cell_wraps_after_256_increments() {
    let mut source = std::iter::repeat(b'+').take(256).collect::<Vec<u8>>();
    source.push(b'.');
    assert_eq!(run_ok(&source, b""), vec![0u8]);
}

#[test]
fn cell_wraps_below_zero_to_255() {
    assert_eq!(run_ok(b"-.", b""), vec![255u8]);
}

#[test]
fn loop_over_zero_cell_runs_no_iteration() {
    // The body would print and move, but the cell is zero: no output,
    // and the cell printed afterwards is untouched.
    assert_eq!(run_ok(b"[.+>].", b""), vec![0u8]);
}

#[test]
fn loop_over_zero_cell_emits_nothing() {
    assert_eq!(run_ok(b"[->+<]", b""), Vec::<u8>::new());
}

#[test]
fn nested_loops_multiply() {
    assert_eq!(run_ok(b"++[>+++<-]>.", b""), vec![6u8]);
}

#[test]
fn nonterminating_loop_exceeds_limit() {
    let p = build(b"+[]").unwrap();
    assert_eq!(run(&p, b"", 1000), Err(ExecError::ExecutionLimitExceeded));
}

#[test]
fn loop_needs_budget_for_each_round() {
    // Counting four down to zero takes four rounds: three are not enough.
    let p = build(b"++++[-]").unwrap();
    assert_eq!(run(&p, b"", 3), Err(ExecError::ExecutionLimitExceeded));
    assert_eq!(run(&p, b"", 4), Ok(Vec::<u8>::new()));
}

#[test]
fn loopless_program_needs_no_budget() {
    let p = build(b",+.").unwrap();
    assert_eq!(run(&p, b"A", 0), Ok(b"B".to_vec()));
}

#[test]
fn sufficient_budgets_agree_on_the_output() {
    let p = build(b"++++[->++<]>.").unwrap();
    let small = run(&p, b"", 5).unwrap();
    let large = run(&p, b"", 1_000_000).unwrap();
    assert_eq!(small, vec![8u8]);
    assert_eq!(small, large);
}

#[test]
fn program_is_reusable_across_runs() {
    let p = build(b",+.").unwrap();
    assert_eq!(run(&p, b"A", 10).unwrap(), b"B".to_vec());
    assert_eq!(run(&p, b"x", 10).unwrap(), b"y".to_vec());
}
