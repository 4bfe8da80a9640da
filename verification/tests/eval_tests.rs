use bf_interp::Error;
use bf_interp::parser::BfParser;
use bf_interp::parser::EvalOutcome;

fn run(src: &str, input: &[&str], fuel: u64) -> (EvalOutcome, Vec<u8>) {
    let mut parser = BfParser::from(src).expect("source should parse");
    let lines: Vec<String> = input.iter().map(|s| s.to_string()).collect();
    let mut out: Vec<u8> = Vec::new();
    let r = parser.iterate(&lines, fuel, &mut out);
    (r, out)
}

fn run_ok(src: &str, input: &[&str]) -> Vec<u8> {
    let (r, out) = run(src, input, 1_000_000);
    assert_eq!(r, EvalOutcome::Completed);
    out
}

#[test]
fn two_increments_output_code_point_two() {
    assert_eq!(run_ok("++.", &[]), vec![2]);
}

#[test]
fn drain_loop_runs_once_and_outputs_nothing() {
    let out = run_ok("+[-]", &[]);
    assert_eq!(out, Vec::<u8>::new());
    // the cell is zero afterwards: printing it yields code point zero
    assert_eq!(run_ok("+[-].", &[]), vec![0]);
}

#[test]
fn repetition_group_outputs_code_point_five() {
    assert_eq!(run_ok("(+5).", &[]), vec![5]);
}

#[test]
fn comment_is_skipped_entirely() {
    assert_eq!(run_ok("/comment/++.", &[]), vec![2]);
}

#[test]
fn whitespace_and_comments_only_produce_no_output() {
    assert_eq!(run_ok("  / nothing here / \t\n", &[]), Vec::<u8>::new());
}

#[test]
fn net_increments_wrap_modulo_256() {
    // 300 increments on one cell: 300 mod 256 = 44
    let src = "(+255)(+45).";
    assert_eq!(run_ok(src, &[]), vec![44]);
}

#[test]
fn decrement_from_zero_wraps_to_255() {
    assert_eq!(run_ok("-.", &[]), vec![255]);
}

#[test]
fn increment_at_255_wraps_to_zero() {
    assert_eq!(run_ok("(+255)+.", &[]), vec![0]);
}

#[test]
fn copy_loop_moves_a_value() {
    // move the value 2 from cell 0 to cell 1
    assert_eq!(run_ok("++[>+<-]>.", &[]), vec![2]);
}

#[test]
fn nested_loop_drains_both_cells() {
    // outer loop: decrement cell 0, inner loop drains cell 1 each pass
    assert_eq!(run_ok("++[>++[-]<-].", &[]), vec![0]);
}

#[test]
fn moving_left_from_start_grows_the_tape() {
    // the new cell is appended at the far end and starts at zero; moving
    // left again steps back onto the original cell
    assert_eq!(run_ok("+<.<.", &[]), vec![0, 1]);
}

#[test]
fn unknown_token_fails_at_evaluation_time() {
    let (r, out) = run("x", &[], 100);
    assert_eq!(r, EvalOutcome::Failed(Error::UnknownToken('x')));
    assert_eq!(out, Vec::<u8>::new());
}

#[test]
fn unknown_token_after_output_keeps_the_output() {
    let (r, out) = run("+.x", &[], 100);
    assert_eq!(r, EvalOutcome::Failed(Error::UnknownToken('x')));
    assert_eq!(out, vec![1]);
}

#[test]
fn input_stores_a_byte() {
    assert_eq!(run_ok(",.", &["65"]), vec![65]);
}

#[test]
fn input_is_trimmed_and_truncated_to_eight_bits() {
    assert_eq!(run_ok(",.", &[" 300 "]), vec![44]);
}

#[test]
fn two_inputs_are_consumed_in_order() {
    assert_eq!(run_ok(",>,<..>.", &["7", "9"]), vec![7, 7, 9]);
}

#[test]
fn missing_input_is_a_parse_failure() {
    let (r, _) = run(",", &[], 100);
    assert_eq!(r, EvalOutcome::Failed(Error::InputParseError));
}

#[test]
fn non_numeric_input_is_a_parse_failure() {
    let (r, _) = run(",", &["abc"], 100);
    assert_eq!(r, EvalOutcome::Failed(Error::InputParseError));
}

#[test]
fn oversized_input_is_a_parse_failure() {
    let (r, _) = run(",", &["4294967296"], 100);
    assert_eq!(r, EvalOutcome::Failed(Error::InputParseError));
}

#[test]
fn largest_accepted_input_truncates_to_255() {
    assert_eq!(run_ok(",.", &["4294967295"]), vec![255]);
}

#[test]
fn endless_loop_runs_out_of_fuel() {
    let (r, out) = run("+[]", &[], 1000);
    assert_eq!(r, EvalOutcome::OutOfFuel);
    assert_eq!(out, Vec::<u8>::new());
}

#[test]
fn fuel_counts_loop_iterations() {
    // the drain loop needs five iterations: four are not enough
    let (r, _) = run("(+5)[-]", &[], 4);
    assert_eq!(r, EvalOutcome::OutOfFuel);
    let (r2, _) = run("(+5)[-]", &[], 5);
    assert_eq!(r2, EvalOutcome::Completed);
}
