//! The two-stage pipeline: structural parsing and evaluation.
//!
//! The evaluator's mathematical model is a fuel-indexed interpreter over the
//! parsed program: every spec function here returns [`EvalStep`], which is
//! either a finished state, a failed state with its runtime error, or a
//! hung state when the loop-iteration budget ran out. One unit of fuel pays
//! for one loop iteration, and a loop grants its body the budget it has
//! left; straight-line operations are free. The executable evaluator is
//! proved to return exactly what the interpreter says for its fuel.
use vstd::prelude::*;

pub mod stack;
pub mod tape;

use crate::Error;
use stack::BfStack;
use stack::BfStackElem;
use stack::BfWhile;
use stack::SpecElem;
use stack::SpecWhile;
use stack::toks::BfTokens;
use stack::stack_view;
use stack::body_view;
use stack::elem_view;
use stack::while_view;
use stack::spec_parse;
use stack::lemma_stack_view_index;
use stack::lemma_stack_view_len;
use stack::lemma_body_view_index;
use stack::lemma_body_view_len;
use tape::BfTape;
use tape::wrap_inc;
use tape::wrap_dec;
use tape::spec_move_left;
use tape::spec_move_right;
use tape::line_parses;
use tape::line_value;

verus! {

/// The state the interpreter acts on: the tape's cells and cursor, the
/// output written so far, and the input lines not yet consumed.
#[verifier::ext_equal]
pub struct EvalState {
    pub cells: Seq<u8>,
    pub cursor: int,
    pub out: Seq<u8>,
    pub inp: Seq<Seq<char>>,
}

/// The result of running the interpreter for some fuel: finished, failed
/// with a runtime error, or out of loop budget. Each case carries the state
/// at that moment, so the contract pins the output written so far even on a
/// failed or interrupted run.
pub enum EvalStep {
    Done(EvalState),
    Fail(Error, EvalState),
    Hung(EvalState),
}

/// The input lines as character sequences.
pub open spec fn lines_view(v: Seq<String>) -> Seq<Seq<char>> {
    v.map_values(|s: String| s@)
}

/// One single operation, dispatched on its character. Movement always
/// succeeds; arithmetic, output and input need the cursor on an allocated
/// cell; input consumes one line (an exhausted input reads as an empty
/// line, which is rejected); any unbound character is the unknown-token
/// error.
pub open spec fn eval_op(st: EvalState, c: char) -> EvalStep {
    if c == BfTokens::ADD {
        if 0 <= st.cursor < st.cells.len() {
            EvalStep::Done(
                EvalState {
                    cells: st.cells.update(st.cursor, wrap_inc(st.cells[st.cursor])),
                    ..st
                },
            )
        } else {
            EvalStep::Fail(Error::OutOfTapeIndex(st.cursor as usize), st)
        }
    } else if c == BfTokens::SUB {
        if 0 <= st.cursor < st.cells.len() {
            EvalStep::Done(
                EvalState {
                    cells: st.cells.update(st.cursor, wrap_dec(st.cells[st.cursor])),
                    ..st
                },
            )
        } else {
            EvalStep::Fail(Error::OutOfTapeIndex(st.cursor as usize), st)
        }
    } else if c == BfTokens::LFT {
        EvalStep::Done(
            EvalState {
                cells: spec_move_left(st.cells, st.cursor).0,
                cursor: spec_move_left(st.cells, st.cursor).1,
                ..st
            },
        )
    } else if c == BfTokens::RGT {
        EvalStep::Done(
            EvalState {
                cells: spec_move_right(st.cells, st.cursor).0,
                cursor: spec_move_right(st.cells, st.cursor).1,
                ..st
            },
        )
    } else if c == BfTokens::OUT {
        if 0 <= st.cursor < st.cells.len() {
            EvalStep::Done(EvalState { out: st.out.push(st.cells[st.cursor]), ..st })
        } else {
            EvalStep::Fail(Error::OutOfTapeIndex(st.cursor as usize), st)
        }
    } else if c == BfTokens::INP {
        let line = if st.inp.len() > 0 {
            st.inp[0]
        } else {
            Seq::empty()
        };
        let rest = if st.inp.len() > 0 {
            st.inp.drop_first()
        } else {
            st.inp
        };
        if !line_parses(line) {
            EvalStep::Fail(Error::InputParseError, EvalState { inp: rest, ..st })
        } else if 0 <= st.cursor < st.cells.len() {
            EvalStep::Done(
                EvalState {
                    cells: st.cells.update(st.cursor, line_value(line)),
                    inp: rest,
                    ..st
                },
            )
        } else {
            EvalStep::Fail(Error::OutOfTapeIndex(st.cursor as usize), EvalState { inp: rest, ..st })
        }
    } else {
        EvalStep::Fail(Error::UnknownToken(c), st)
    }
}

/// Run the instructions of `prog` from position `i` on.
pub open spec fn eval_elems(prog: Seq<SpecElem>, i: int, st: EvalState, fuel: nat) -> EvalStep
    decreases fuel, prog, prog.len() - i + 1,
{
    if i < 0 || i >= prog.len() {
        EvalStep::Done(st)
    } else {
        match eval_elem(prog[i], st, fuel) {
            EvalStep::Done(st2) => eval_elems(prog, i + 1, st2, fuel),
            r => r,
        }
    }
}

/// Run one instruction.
pub open spec fn eval_elem(e: SpecElem, st: EvalState, fuel: nat) -> EvalStep
    decreases fuel, e, 1int,
{
    match e {
        SpecElem::Single(c) => eval_op(st, c),
        SpecElem::While(body) => eval_loop(body, st, fuel),
    }
}

/// The loop protocol: re-check the current cell at the head of every
/// iteration; on zero the loop is done, otherwise run the body once and
/// re-check. Each iteration costs one unit of fuel, and the body runs on
/// the budget that remains.
pub open spec fn eval_loop(body: Seq<SpecWhile>, st: EvalState, fuel: nat) -> EvalStep
    decreases fuel, body, body.len() + 2,
{
    if !(0 <= st.cursor < st.cells.len()) {
        EvalStep::Fail(Error::OutOfTapeIndex(st.cursor as usize), st)
    } else if st.cells[st.cursor] == 0 {
        EvalStep::Done(st)
    } else if fuel == 0 {
        EvalStep::Hung(st)
    } else {
        match eval_items(body, 0, st, (fuel - 1) as nat) {
            EvalStep::Done(st2) => eval_loop(body, st2, (fuel - 1) as nat),
            r => r,
        }
    }
}

/// Run the elements of a loop body from position `i` on; the `End` sentinel
/// closes the body.
pub open spec fn eval_items(body: Seq<SpecWhile>, i: int, st: EvalState, fuel: nat) -> EvalStep
    decreases fuel, body, body.len() - i + 1,
{
    if i < 0 || i >= body.len() {
        EvalStep::Done(st)
    } else {
        match body[i] {
            SpecWhile::End => EvalStep::Done(st),
            SpecWhile::Linear(c) => match eval_op(st, c) {
                EvalStep::Done(st2) => eval_items(body, i + 1, st2, fuel),
                r => r,
            },
            SpecWhile::Nested(e) => match eval_elem(e, st, fuel) {
                EvalStep::Done(st2) => eval_items(body, i + 1, st2, fuel),
                r => r,
            },
        }
    }
}

/// The state a fresh run starts from: one zeroed cell, cursor at index 0,
/// the given output prefix, and the whole input.
pub open spec fn init_eval_state(inp: Seq<Seq<char>>, out0: Seq<u8>) -> EvalState {
    EvalState { cells: seq![0u8], cursor: 0, out: out0, inp }
}

/// The evaluator's view of the live tape, output and input position.
pub open spec fn cur_state(t: BfTape, out: Seq<u8>, input: Seq<String>, pos: int) -> EvalState {
    EvalState {
        cells: t.cells(),
        cursor: t.curr_index as int,
        out,
        inp: lines_view(input).skip(pos),
    }
}

/// What the executable evaluator reports: the program finished, the
/// loop-iteration budget ran out, or a runtime error stopped the run.
#[derive(Debug, Clone, PartialEq, Eq, Structural)]
pub enum EvalOutcome {
    Completed,
    OutOfFuel,
    Failed(Error),
}

/// The parsed program, ready to be evaluated.
#[derive(Debug)]
pub struct BfParser {
    pub stack: BfStack,
}

/// Dispatch one single operation character against the tape, the output and
/// the input position: the executable form of [`eval_op`].
pub fn opt_func(
    ch: &char,
    tape: &mut BfTape,
    out: &mut Vec<u8>,
    input: &Vec<String>,
    in_pos: &mut usize,
) -> (r: Result<(), Error>)
    requires
        old(tape).wf(),
        *old(in_pos) <= input@.len(),
    ensures
        final(tape).wf(),
        *final(in_pos) <= input@.len(),
        match eval_op(cur_state(*old(tape), old(out)@, input@, *old(in_pos) as int), *ch) {
            EvalStep::Done(st2) => r is Ok && st2 == cur_state(
                *final(tape),
                final(out)@,
                input@,
                *final(in_pos) as int,
            ),
            EvalStep::Fail(e, st2) => r == Err::<(), Error>(e) && st2 == cur_state(
                *final(tape),
                final(out)@,
                input@,
                *final(in_pos) as int,
            ),
            EvalStep::Hung(_) => false,
        },
{
    let ghost st = cur_state(*old(tape), old(out)@, input@, *old(in_pos) as int);
    let c = *ch;
    if c == BfTokens::ADD {
        let r = tape.inc_curr();
        proof {
            if r is Ok {
                assert(cur_state(*tape, out@, input@, *in_pos as int) =~= eval_op(st, c)->Done_0);
            }
        }
        r
    } else if c == BfTokens::SUB {
        let r = tape.dec_curr();
        proof {
            if r is Ok {
                assert(cur_state(*tape, out@, input@, *in_pos as int) =~= eval_op(st, c)->Done_0);
            }
        }
        r
    } else if c == BfTokens::LFT {
        tape.move_left();
        proof {
            assert(cur_state(*tape, out@, input@, *in_pos as int) =~= eval_op(st, c)->Done_0);
        }
        Ok(())
    } else if c == BfTokens::RGT {
        tape.move_right();
        proof {
            assert(cur_state(*tape, out@, input@, *in_pos as int) =~= eval_op(st, c)->Done_0);
        }
        Ok(())
    } else if c == BfTokens::OUT {
        match tape.output_cell() {
            Ok(v) => {
                out.push(v);
                proof {
                    assert(cur_state(*tape, out@, input@, *in_pos as int) =~= eval_op(
                        st,
                        c,
                    )->Done_0);
                }
                Ok(())
            },
            Err(e) => Err(e),
        }
    } else if c == BfTokens::INP {
        proof {
            assert(lines_view(input@).skip(*old(in_pos) as int).len() == input@.len() - *old(
                in_pos,
            ));
        }
        if *in_pos < input.len() {
            let line: &String = &input[*in_pos];
            *in_pos = *in_pos + 1;
            let r = tape.input_cell(line.as_str());
            proof {
                assert(st.inp[0] == line@);
                assert(st.inp.drop_first() =~= lines_view(input@).skip(*in_pos as int));
                match eval_op(st, c) {
                    EvalStep::Done(st2) => {
                        assert(cur_state(*tape, out@, input@, *in_pos as int) =~= st2);
                    },
                    EvalStep::Fail(_, st2) => {
                        assert(cur_state(*tape, out@, input@, *in_pos as int) =~= st2);
                    },
                    EvalStep::Hung(_) => {},
                }
            }
            r
        } else {
            let r = tape.input_cell("");
            proof {
                reveal_strlit("");
                assert(""@ =~= Seq::<char>::empty());
                assert(st.inp.len() == 0);
                assert(st.inp.skip(0) =~= st.inp);
                match eval_op(st, c) {
                    EvalStep::Done(st2) => {
                        assert(cur_state(*tape, out@, input@, *in_pos as int) =~= st2);
                    },
                    EvalStep::Fail(_, st2) => {
                        assert(cur_state(*tape, out@, input@, *in_pos as int) =~= st2);
                    },
                    EvalStep::Hung(_) => {},
                }
            }
            r
        }
    } else {
        Err(Error::UnknownToken(c))
    }
}

/// Execute one loop under the loop protocol: the executable form of
/// [`eval_loop`]. Returns `Ok(true)` when the loop finished, `Ok(false)`
/// when the loop-iteration budget ran out, and the runtime error otherwise.
#[verifier::loop_isolation(false)]
#[verifier::rlimit(60)]
pub fn while_loop(
    items: &Vec<BfWhile>,
    tape: &mut BfTape,
    out: &mut Vec<u8>,
    input: &Vec<String>,
    in_pos: &mut usize,
    fuel: u64,
) -> (r: Result<bool, Error>)
    requires
        old(tape).wf(),
        *old(in_pos) <= input@.len(),
    ensures
        final(tape).wf(),
        *final(in_pos) <= input@.len(),
        match eval_loop(
            body_view(items@),
            cur_state(*old(tape), old(out)@, input@, *old(in_pos) as int),
            fuel as nat,
        ) {
            EvalStep::Done(st2) => r == Ok::<bool, Error>(true) && st2 == cur_state(
                *final(tape),
                final(out)@,
                input@,
                *final(in_pos) as int,
            ),
            EvalStep::Hung(st2) => r == Ok::<bool, Error>(false) && st2 == cur_state(
                *final(tape),
                final(out)@,
                input@,
                *final(in_pos) as int,
            ),
            EvalStep::Fail(e, st2) => r == Err::<bool, Error>(e) && st2 == cur_state(
                *final(tape),
                final(out)@,
                input@,
                *final(in_pos) as int,
            ),
        },
    decreases fuel,
{
    let ghost b = body_view(items@);
    let ghost st0 = cur_state(*old(tape), old(out)@, input@, *old(in_pos) as int);
    proof {
        lemma_body_view_len(items@);
    }
    let mut myfuel: u64 = fuel;
    loop
        invariant
            tape.wf(),
            *in_pos <= input@.len(),
            myfuel <= fuel,
            eval_loop(b, st0, fuel as nat) == eval_loop(
                b,
                cur_state(*tape, out@, input@, *in_pos as int),
                myfuel as nat,
            ),
        decreases myfuel,
    {
        let ghost st_iter = cur_state(*tape, out@, input@, *in_pos as int);
        let ci = tape.curr_index;
        let v = tape.cell_container[ci].value;
        proof {
            assert(v == st_iter.cells[st_iter.cursor]);
        }
        if v == 0 {
            return Ok(true);
        }
        if myfuel == 0 {
            return Ok(false);
        }
        myfuel = myfuel - 1;
        let ghost fuel_pre = myfuel + 1;
        proof {
            assert(eval_loop(b, st_iter, fuel_pre as nat) == (match eval_items(
                b,
                0,
                st_iter,
                myfuel as nat,
            ) {
                EvalStep::Done(st2) => eval_loop(b, st2, myfuel as nat),
                r2 => r2,
            }));
        }
        let n = items.len();
        let mut j: usize = 0;
        let mut ended: bool = false;
        while j < n && !ended
            invariant
                j <= n,
                tape.wf(),
                *in_pos <= input@.len(),
                !ended ==> eval_items(b, 0, st_iter, myfuel as nat) == eval_items(
                    b,
                    j as int,
                    cur_state(*tape, out@, input@, *in_pos as int),
                    myfuel as nat,
                ),
                ended ==> eval_items(b, 0, st_iter, myfuel as nat) == EvalStep::Done(
                    cur_state(*tape, out@, input@, *in_pos as int),
                ),
            decreases n - j,
        {
            let ghost st_j = cur_state(*tape, out@, input@, *in_pos as int);
            proof {
                lemma_body_view_index(items@, j as int);
            }
            let it = &items[j];
            match it {
                BfWhile::End => {
                    ended = true;
                },
                BfWhile::Linear(x) => {
                    match opt_func(x, tape, out, input, in_pos) {
                        Ok(()) => {},
                        Err(e) => {
                            return Err(e);
                        },
                    }
                },
                BfWhile::Nested(nested_item) => {
                    proof {
                        assert(b[j as int] == SpecWhile::Nested(elem_view(**nested_item)));
                    }
                    match &(**nested_item) {
                        BfStackElem::Single(x) => {
                            proof {
                                assert(elem_view(**nested_item) == SpecElem::Single(*x));
                                assert(eval_elem(elem_view(**nested_item), st_j, myfuel as nat)
                                    == eval_op(st_j, *x));
                            }
                            match opt_func(x, tape, out, input, in_pos) {
                                Ok(()) => {},
                                Err(e) => {
                                    return Err(e);
                                },
                            }
                        },
                        BfStackElem::While(x) => {
                            proof {
                                assert(elem_view(**nested_item) == SpecElem::While(body_view(x@)));
                                assert(eval_elem(elem_view(**nested_item), st_j, myfuel as nat)
                                    == eval_loop(body_view(x@), st_j, myfuel as nat));
                            }
                            match while_loop(x, tape, out, input, in_pos, myfuel) {
                                Ok(true) => {},
                                Ok(false) => {
                                    return Ok(false);
                                },
                                Err(e) => {
                                    return Err(e);
                                },
                            }
                        },
                    }
                },
            }
            j = j + 1;
        }
        proof {
            assert(eval_items(b, 0, st_iter, myfuel as nat) == EvalStep::Done(
                cur_state(*tape, out@, input@, *in_pos as int),
            ));
        }
    }
}

/// An empty program evaluates to its starting state unchanged: nothing is
/// written to the output and nothing is read from the input.
pub proof fn lemma_eval_empty(st: EvalState, fuel: nat)
    ensures
        eval_elems(Seq::<SpecElem>::empty(), 0, st, fuel) == EvalStep::Done(st),
{
}

/// Raising the fuel of a run that did not hang changes nothing: the
/// interpreter's outcome for a program position is the outcome of every
/// sufficient budget.
pub proof fn lemma_mono_elems(prog: Seq<SpecElem>, i: int, st: EvalState, f1: nat, f2: nat)
    requires
        f1 <= f2,
        !(eval_elems(prog, i, st, f1) is Hung),
    ensures
        eval_elems(prog, i, st, f2) == eval_elems(prog, i, st, f1),
    decreases f1, prog, prog.len() - i + 1,
{
    if 0 <= i < prog.len() {
        lemma_mono_elem(prog[i], st, f1, f2);
        match eval_elem(prog[i], st, f1) {
            EvalStep::Done(st2) => {
                lemma_mono_elems(prog, i + 1, st2, f1, f2);
            },
            _ => {},
        }
    }
}

/// Fuel monotonicity for one instruction.
pub proof fn lemma_mono_elem(e: SpecElem, st: EvalState, f1: nat, f2: nat)
    requires
        f1 <= f2,
        !(eval_elem(e, st, f1) is Hung),
    ensures
        eval_elem(e, st, f2) == eval_elem(e, st, f1),
    decreases f1, e, 1int,
{
    match e {
        SpecElem::Single(_) => {},
        SpecElem::While(body) => {
            lemma_mono_loop(body, st, f1, f2);
        },
    }
}

/// Fuel monotonicity for the loop protocol.
pub proof fn lemma_mono_loop(body: Seq<SpecWhile>, st: EvalState, f1: nat, f2: nat)
    requires
        f1 <= f2,
        !(eval_loop(body, st, f1) is Hung),
    ensures
        eval_loop(body, st, f2) == eval_loop(body, st, f1),
    decreases f1, body, body.len() + 2,
{
    if 0 <= st.cursor < st.cells.len() && st.cells[st.cursor] != 0 {
        lemma_mono_items(body, 0, st, (f1 - 1) as nat, (f2 - 1) as nat);
        match eval_items(body, 0, st, (f1 - 1) as nat) {
            EvalStep::Done(st2) => {
                lemma_mono_loop(body, st2, (f1 - 1) as nat, (f2 - 1) as nat);
            },
            _ => {},
        }
    }
}

/// Fuel monotonicity for a loop body.
pub proof fn lemma_mono_items(body: Seq<SpecWhile>, i: int, st: EvalState, f1: nat, f2: nat)
    requires
        f1 <= f2,
        !(eval_items(body, i, st, f1) is Hung),
    ensures
        eval_items(body, i, st, f2) == eval_items(body, i, st, f1),
    decreases f1, body, body.len() - i + 1,
{
    if 0 <= i < body.len() {
        match body[i] {
            SpecWhile::End => {},
            SpecWhile::Linear(c) => {
                match eval_op(st, c) {
                    EvalStep::Done(st2) => {
                        lemma_mono_items(body, i + 1, st2, f1, f2);
                    },
                    _ => {},
                }
            },
            SpecWhile::Nested(e) => {
                lemma_mono_elem(e, st, f1, f2);
                match eval_elem(e, st, f1) {
                    EvalStep::Done(st2) => {
                        lemma_mono_items(body, i + 1, st2, f1, f2);
                    },
                    _ => {},
                }
            },
        }
    }
}

/// The state after one pass of a draining loop body: the entry cell is one
/// lower, everything else untouched.
pub open spec fn dec_entry(s: EvalState) -> EvalState {
    EvalState { cells: s.cells.update(s.cursor, (s.cells[s.cursor] - 1) as u8), ..s }
}

/// Whether one pass of the body `b` from state `s` finishes with exactly the
/// entry cell decremented: net cursor movement zero, no other change.
pub open spec fn body_drains_once(b: Seq<SpecWhile>, s: EvalState) -> bool {
    exists|f: nat| eval_items(b, 0, s, f) == EvalStep::Done(dec_entry(s))
}

/// The loop protocol terminates on a draining body: if every pass of the
/// body from a non-zero entry cell ends with exactly that cell decremented,
/// then the loop reaches, for some budget, the entry state with its cell at
/// zero — the manual flattening of the re-check-at-head protocol.
pub proof fn lemma_loop_drain(b: Seq<SpecWhile>, st: EvalState)
    requires
        0 <= st.cursor < st.cells.len(),
        forall|s: EvalState|
            (0 <= s.cursor < s.cells.len() && s.cells[s.cursor] != 0) ==> #[trigger] body_drains_once(
                b,
                s,
            ),
    ensures
        exists|f: nat|
            eval_loop(b, st, f) == EvalStep::Done(
                EvalState { cells: st.cells.update(st.cursor, 0u8), ..st },
            ),
    decreases st.cells[st.cursor],
{
    let v = st.cells[st.cursor];
    let target = EvalState { cells: st.cells.update(st.cursor, 0u8), ..st };
    if v == 0 {
        assert(st.cells.update(st.cursor, 0u8) =~= st.cells);
        assert(target =~= st);
        assert(eval_loop(b, st, 0nat) == EvalStep::Done(target));
    } else {
        assert(body_drains_once(b, st));
        let f1 = choose|f: nat| eval_items(b, 0, st, f) == EvalStep::Done(dec_entry(st));
        let st1 = dec_entry(st);
        assert(st1.cells[st1.cursor] == v - 1);
        lemma_loop_drain(b, st1);
        let target1 = EvalState { cells: st1.cells.update(st1.cursor, 0u8), ..st1 };
        let f2 = choose|f: nat| eval_loop(b, st1, f) == EvalStep::Done(target1);
        let fm: nat = if f1 > f2 {
            f1
        } else {
            f2
        };
        lemma_mono_items(b, 0, st, f1, fm);
        lemma_mono_loop(b, st1, f2, fm);
        assert(target1 =~= target);
        assert(eval_loop(b, st, (fm + 1) as nat) == EvalStep::Done(target));
    }
}

/// The loop protocol takes exactly one iteration per unit of the entry
/// cell: on a draining body, any budget below the entry cell's value hangs.
pub proof fn lemma_loop_drain_lower(b: Seq<SpecWhile>, st: EvalState, f: nat)
    requires
        0 <= st.cursor < st.cells.len(),
        forall|s: EvalState|
            (0 <= s.cursor < s.cells.len() && s.cells[s.cursor] != 0) ==> #[trigger] body_drains_once(
                b,
                s,
            ),
        f < st.cells[st.cursor],
    ensures
        eval_loop(b, st, f) is Hung,
    decreases f,
{
    let v = st.cells[st.cursor];
    if f > 0 {
        assert(body_drains_once(b, st));
        let f1 = choose|f3: nat| eval_items(b, 0, st, f3) == EvalStep::Done(dec_entry(st));
        match eval_items(b, 0, st, (f - 1) as nat) {
            EvalStep::Hung(_) => {},
            EvalStep::Done(st2) => {
                let fm: nat = if f1 > f {
                    f1
                } else {
                    f
                };
                lemma_mono_items(b, 0, st, (f - 1) as nat, fm);
                lemma_mono_items(b, 0, st, f1, fm);
                assert(st2 == dec_entry(st));
                lemma_loop_drain_lower(b, st2, (f - 1) as nat);
            },
            EvalStep::Fail(_, _) => {
                let fm: nat = if f1 > f {
                    f1
                } else {
                    f
                };
                lemma_mono_items(b, 0, st, (f - 1) as nat, fm);
                lemma_mono_items(b, 0, st, f1, fm);
                assert(false);
            },
        }
    }
}

/// Whether every instruction of `prog` is a plain increment or decrement.
pub open spec fn only_arith(prog: Seq<SpecElem>) -> bool {
    forall|i: int|
        0 <= i < prog.len() ==> ((#[trigger] prog[i]) == SpecElem::Single(BfTokens::ADD)
            || prog[i] == SpecElem::Single(BfTokens::SUB))
}

/// The net effect of `prog` on a cell: increments minus decrements.
pub open spec fn net_delta(prog: Seq<SpecElem>) -> int
    decreases prog.len(),
{
    if prog.len() == 0 {
        0
    } else {
        (if prog[0] == SpecElem::Single(BfTokens::ADD) {
            1int
        } else {
            -1int
        }) + net_delta(prog.drop_first())
    }
}

/// The round trip of a straight-line arithmetic program: a program of only
/// increments and decrements, with no movement, finishes for any fuel and
/// leaves the cell under the cursor at `(initial + net increments) mod 256`;
/// no other cell, the output and the input change.
pub proof fn lemma_arith_round_trip(prog: Seq<SpecElem>, st: EvalState, fuel: nat)
    requires
        only_arith(prog),
        0 <= st.cursor < st.cells.len(),
    ensures
        eval_elems(prog, 0, st, fuel) == EvalStep::Done(
            EvalState {
                cells: st.cells.update(
                    st.cursor,
                    (((st.cells[st.cursor] + net_delta(prog)) % 256) as u8),
                ),
                ..st
            },
        ),
    decreases prog.len(),
{
    let v = st.cells[st.cursor];
    if prog.len() == 0 {
        assert(st.cells.update(st.cursor, ((v + 0) % 256) as u8) =~= st.cells);
        assert(EvalState { cells: st.cells.update(st.cursor, ((v + net_delta(prog)) % 256) as u8), ..st }
            =~= st);
    } else {
        let d0: int = if prog[0] == SpecElem::Single(BfTokens::ADD) {
            1int
        } else {
            -1int
        };
        let v1: u8 = if d0 == 1 {
            wrap_inc(v)
        } else {
            wrap_dec(v)
        };
        let st1 = EvalState { cells: st.cells.update(st.cursor, v1), ..st };
        assert(eval_elem(prog[0], st, fuel) == EvalStep::Done(st1));
        lemma_eval_elems_shift(prog, 1, st1, fuel);
        lemma_arith_round_trip(prog.drop_first(), st1, fuel);
        let rest = prog.drop_first();
        assert(v1 as int == (v + d0) % 256) by {
            assert((v + 1) % 256 == if v < 255 {
                v + 1
            } else {
                0
            });
            assert((v - 1) % 256 == if v > 0 {
                v - 1
            } else {
                255
            });
        }
        assert((v1 + net_delta(rest)) % 256 == (v + net_delta(prog)) % 256) by {
            vstd::arithmetic::div_mod::lemma_add_mod_noop(v as int + d0, net_delta(rest), 256);
            vstd::arithmetic::div_mod::lemma_mod_twice(v as int + d0, 256);
            assert(v1 as int % 256 == v1 as int);
        };
        assert(st1.cells.update(st.cursor, ((v1 + net_delta(rest)) % 256) as u8) =~= st.cells.update(
            st.cursor,
            ((v + net_delta(prog)) % 256) as u8,
        ));
    }
}

/// Skipping the first instruction of a program and shifting the position by
/// one are the same run.
proof fn lemma_eval_elems_shift(prog: Seq<SpecElem>, i: int, st: EvalState, fuel: nat)
    requires
        1 <= i <= prog.len(),
    ensures
        eval_elems(prog, i, st, fuel) == eval_elems(prog.drop_first(), i - 1, st, fuel),
    decreases prog.len() - i,
{
    if i < prog.len() {
        assert(prog.drop_first()[i - 1] == prog[i]);
        match eval_elem(prog[i], st, fuel) {
            EvalStep::Done(st2) => {
                lemma_eval_elems_shift(prog, i + 1, st2, fuel);
            },
            _ => {},
        }
    }
}

/// Dropping the first instruction commutes with taking the program's view.
proof fn lemma_stack_view_drop_first(s: Seq<BfStackElem>)
    requires
        s.len() > 0,
    ensures
        stack_view(s.drop_first()) == stack_view(s).drop_first(),
{
    lemma_stack_view_len(s);
    lemma_stack_view_len(s.drop_first());
    assert forall|i: int| 0 <= i < s.len() - 1 implies stack_view(s.drop_first())[i] == stack_view(
        s,
    ).drop_first()[i] by {
        lemma_stack_view_index(s.drop_first(), i);
        lemma_stack_view_index(s, i + 1);
        assert(s.drop_first()[i] == s[i + 1]);
    }
    assert(stack_view(s.drop_first()) =~= stack_view(s).drop_first());
}

impl BfParser {
    /// Parse a source string into a ready evaluator: succeeds with the
    /// program [`spec_parse`] assigns to the source, or forwards the
    /// structural error it assigns.
    pub fn from(src: &str) -> (r: Result<Self, Error>)
        ensures
            match spec_parse(src@) {
                Ok(p) => r matches Ok(parser) && parser.stack.wf() && stack_view(
                    parser.stack.item@,
                ) == p,
                Err(e) => r == Err::<Self, Error>(Error::StackModuleError(e)),
            },
    {
        match BfParser::parse(src) {
            Ok(stack) => Ok(BfParser { stack }),
            Err(e) => Err(e),
        }
    }

    /// Build the program representation for a source string.
    fn parse(source: &str) -> (r: Result<BfStack, Error>)
        ensures
            match spec_parse(source@) {
                Ok(p) => r matches Ok(stack) && stack.wf() && stack_view(stack.item@) == p,
                Err(e) => r == Err::<BfStack, Error>(Error::StackModuleError(e)),
            },
    {
        let mut stack = BfStack::init_stack();
        match stack.stackify(source) {
            Ok(()) => {
                proof {
                    if spec_parse(source@) is Ok {
                        assert(stack_view(Seq::<BfStackElem>::empty()) + (
                        match spec_parse(source@) {
                            Ok(p) => p,
                            Err(_) => Seq::empty(),
                        }) =~= (match spec_parse(source@) {
                            Ok(p) => p,
                            Err(_) => Seq::empty(),
                        }));
                    }
                }
                Ok(stack)
            },
            Err(e) => Err(Error::StackModuleError(e)),
        }
    }

    /// Evaluate the program against a fresh tape, consuming the program
    /// front to back: the executable form of [`eval_elems`]. The bytes the
    /// program writes are appended to `out`; each input operation consumes
    /// the next line of `input`. `fuel` bounds the number of loop
    /// iterations any one loop may run before the evaluator reports
    /// [`EvalOutcome::OutOfFuel`].
    #[verifier::loop_isolation(false)]
    pub fn iterate(&mut self, input: &Vec<String>, fuel: u64, out: &mut Vec<u8>) -> (r:
        EvalOutcome)
        requires
            old(self).stack.wf(),
        ensures
            final(self).stack.wf(),
            match eval_elems(
                stack_view(old(self).stack.item@),
                0,
                init_eval_state(lines_view(input@), old(out)@),
                fuel as nat,
            ) {
                EvalStep::Done(st2) => r == EvalOutcome::Completed && final(out)@ == st2.out
                    && final(self).stack.item@.len() == 0,
                EvalStep::Hung(st2) => r == EvalOutcome::OutOfFuel && final(out)@ == st2.out,
                EvalStep::Fail(e, st2) => r == EvalOutcome::Failed(e) && final(out)@ == st2.out,
            },
    {
        let ghost prog0 = stack_view(old(self).stack.item@);
        let ghost st0 = init_eval_state(lines_view(input@), old(out)@);
        let mut tape = BfTape::init_tape();
        let mut in_pos: usize = 0;
        proof {
            assert(lines_view(input@).skip(0) =~= lines_view(input@));
            assert(cur_state(tape, out@, input@, 0) =~= st0);
        }
        while self.stack.length > 0
            invariant
                self.stack.wf(),
                tape.wf(),
                in_pos <= input@.len(),
                eval_elems(prog0, 0, st0, fuel as nat) == eval_elems(
                    stack_view(self.stack.item@),
                    0,
                    cur_state(tape, out@, input@, in_pos as int),
                    fuel as nat,
                ),
            decreases self.stack.item@.len(),
        {
            let ghost items = self.stack.item@;
            let ghost st_j = cur_state(tape, out@, input@, in_pos as int);
            proof {
                lemma_stack_view_len(items);
                lemma_stack_view_index(items, 0);
            }
            let step_err: Option<Error>;
            let mut hung: bool = false;
            match &self.stack.item[0] {
                BfStackElem::Single(x) => {
                    match opt_func(x, &mut tape, out, input, &mut in_pos) {
                        Ok(()) => {
                            step_err = None;
                        },
                        Err(e) => {
                            step_err = Some(e);
                        },
                    }
                },
                BfStackElem::While(x) => {
                    match while_loop(x, &mut tape, out, input, &mut in_pos, fuel) {
                        Ok(true) => {
                            step_err = None;
                        },
                        Ok(false) => {
                            step_err = None;
                            hung = true;
                        },
                        Err(e) => {
                            step_err = Some(e);
                        },
                    }
                },
            }
            match step_err {
                Some(e) => {
                    return EvalOutcome::Failed(e);
                },
                None => {},
            }
            if hung {
                return EvalOutcome::OutOfFuel;
            }
            proof {
                lemma_eval_elems_shift(stack_view(items), 1, cur_state(
                    tape,
                    out@,
                    input@,
                    in_pos as int,
                ), fuel as nat);
                lemma_stack_view_drop_first(items);
            }
            self.stack.pop_stack();
        }
        EvalOutcome::Completed
    }
}

} // verus!
