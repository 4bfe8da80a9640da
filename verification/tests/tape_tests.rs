use bf_interp::Error;
use bf_interp::parser::tape::BfCell;
use bf_interp::parser::tape::BfTape;
use bf_interp::parser::tape::parse_input_line;
use bf_interp::parser::tape::TAPE_SIZE;

#[test]
fn fresh_tape_has_one_zero_cell() {
    let t = BfTape::init_tape();
    assert_eq!(t.cell_container.len(), 1);
    assert_eq!(t.cell_container[0].value, 0);
    assert_eq!(t.curr_index, 0);
}

#[test]
fn cell_increment_at_255_wraps_to_zero() {
    let mut t = BfTape::init_tape();
    for _ in 0..255 {
        t.inc_curr().expect("cursor is on an allocated cell");
    }
    assert_eq!(t.cell_container[0].value, 255);
    t.inc_curr().expect("cursor is on an allocated cell");
    assert_eq!(t.cell_container[0].value, 0);
}

#[test]
fn decrement_at_zero_wraps_to_255() {
    let mut t = BfTape::init_tape();
    t.dec_curr().expect("cursor is on an allocated cell");
    assert_eq!(t.cell_container[0].value, 255);
}

#[test]
fn moving_right_grows_the_tape_lazily() {
    let mut t = BfTape::init_tape();
    t.move_right();
    assert_eq!(t.cell_container.len(), 2);
    assert_eq!(t.curr_index, 1);
}

#[test]
fn moving_left_from_index_zero_grows_the_tape() {
    let mut t = BfTape::init_tape();
    t.move_left();
    assert_eq!(t.cell_container.len(), 2);
    assert_eq!(t.curr_index, 1);
}

#[test]
fn moving_left_inside_the_tape_steps_back() {
    let mut t = BfTape::init_tape();
    t.move_right();
    t.move_left();
    assert_eq!(t.curr_index, 0);
    assert_eq!(t.cell_container.len(), 2);
}

#[test]
fn growth_stops_at_the_cap_and_moving_right_wraps() {
    let mut t = BfTape::init_tape();
    for _ in 0..(TAPE_SIZE - 1) {
        t.move_right();
    }
    assert_eq!(t.cell_container.len(), TAPE_SIZE);
    assert_eq!(t.curr_index, TAPE_SIZE - 1);
    t.move_right();
    assert_eq!(t.curr_index, 0);
    assert_eq!(t.cell_container.len(), TAPE_SIZE);
}

#[test]
fn moving_left_at_zero_with_a_full_tape_jumps_to_the_end() {
    let mut t = BfTape::init_tape();
    for _ in 0..(TAPE_SIZE - 1) {
        t.move_right();
    }
    t.move_right();
    assert_eq!(t.curr_index, 0);
    t.move_left();
    assert_eq!(t.curr_index, TAPE_SIZE - 1);
    assert_eq!(t.cell_container.len(), TAPE_SIZE);
}

#[test]
fn output_cell_reads_the_current_cell() {
    let mut t = BfTape::init_tape();
    t.inc_curr().expect("cursor is on an allocated cell");
    assert_eq!(t.output_cell(), Ok(1));
}

#[test]
fn input_cell_stores_a_parsed_line() {
    let mut t = BfTape::init_tape();
    t.input_cell(" 66 ").expect("line should parse");
    assert_eq!(t.cell_container[0].value, 66);
}

#[test]
fn input_cell_rejects_a_bad_line() {
    let mut t = BfTape::init_tape();
    assert_eq!(t.input_cell("six"), Err(Error::InputParseError));
    assert_eq!(t.cell_container[0].value, 0);
}

#[test]
fn arithmetic_off_the_tape_is_the_defensive_error() {
    // the public operations never move the cursor off an allocated cell;
    // a hand-built tape can, and the arithmetic reports it
    let mut t = BfTape {
        cell_container: vec![BfCell { value: 0 }],
        curr_index: 3,
        index_counter: 0,
    };
    assert_eq!(t.inc_curr(), Err(Error::OutOfTapeIndex(3)));
    assert_eq!(t.dec_curr(), Err(Error::OutOfTapeIndex(3)));
    assert_eq!(t.output_cell(), Err(Error::OutOfTapeIndex(3)));
    assert_eq!(t.input_cell("1"), Err(Error::OutOfTapeIndex(3)));
}

#[test]
fn parse_input_line_trims_and_truncates() {
    assert_eq!(parse_input_line("0"), Ok(0));
    assert_eq!(parse_input_line("42"), Ok(42));
    assert_eq!(parse_input_line("\t 42 \n"), Ok(42));
    assert_eq!(parse_input_line("300"), Ok(44));
    assert_eq!(parse_input_line("000000000007"), Ok(7));
    assert_eq!(parse_input_line("4294967295"), Ok(255));
}

#[test]
fn parse_input_line_rejects_bad_lines() {
    assert_eq!(parse_input_line(""), Err(Error::InputParseError));
    assert_eq!(parse_input_line("   "), Err(Error::InputParseError));
    assert_eq!(parse_input_line("-1"), Err(Error::InputParseError));
    assert_eq!(parse_input_line("12a"), Err(Error::InputParseError));
    assert_eq!(parse_input_line("4294967296"), Err(Error::InputParseError));
}
