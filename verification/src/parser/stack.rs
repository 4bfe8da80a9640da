//! The structural parser: from a raw character stream to a nested program.
//!
//! The mathematical model is a step machine that consumes one character at a
//! time ([`parse_step`]) while carrying the program built so far, the stack
//! of open loop bodies, and a mode (ordinary scanning, inside a comment, or
//! inside a repetition group). Whitespace is ignored in every mode, which is
//! equivalent to filtering it out up front. [`spec_parse`] runs the machine
//! over the whole source and closes it out; the executable
//! [`BfStack::stackify`] is proved to return exactly what [`spec_parse`]
//! says, for every source string.
use vstd::prelude::*;

pub mod toks;

use toks::BfTokens;
use toks::is_whitespace;
use toks::is_rep_op;
use toks::is_digit;
use toks::digit_value;
use toks::all_digits;
use toks::digits_value;

verus! {

/// A structural (parse-time) error.
#[derive(Debug, Clone, PartialEq, Eq, Structural)]
pub enum Error {
    /// A repetition close symbol with no matching open.
    MismatchedBrackets,
    /// A loop close symbol with no matching open.
    MismatchedLoop,
    /// The input ended while a loop body was still open.
    UnterminatedLoop,
    /// The input ended inside a comment.
    CommentTagNotClosed,
    /// A syntax error inside a repetition group.
    SyntaxError(SyntaxError),
}

/// A syntax error inside a repetition group.
#[derive(Debug, Clone, PartialEq, Eq, Structural)]
pub enum SyntaxError {
    /// A character that is neither a digit nor the close symbol stood where
    /// the repetition count was expected.
    OnlyDigitsAllowedHere(char),
    /// The comment marker appeared inside an open repetition group.
    CommentInsideBracket,
    /// The repetition count does not fit the machine's integer range.
    ParseNumError,
    /// The input ended before the repetition group was closed.
    UnclosedParanthesis,
    /// The character after the repetition open symbol is not one of the four
    /// movement or arithmetic operations.
    ExpectedSymbol(char),
}

/// An element of a loop body: a plain operation, a nested loop, or the `End`
/// sentinel that closes the body.
#[derive(Debug, PartialEq, Eq)]
pub enum BfWhile {
    End,
    Linear(char),
    Nested(Box<BfStackElem>),
}

/// One instruction: a single operation character, or a loop body.
#[derive(Debug, PartialEq, Eq)]
pub enum BfStackElem {
    Single(char),
    While(Vec<BfWhile>),
}

/// The mathematical form of one instruction.
pub enum SpecElem {
    Single(char),
    While(Seq<SpecWhile>),
}

/// The mathematical form of one loop-body element.
pub enum SpecWhile {
    End,
    Linear(char),
    Nested(SpecElem),
}

/// The abstraction of a loop-body element.
pub open spec fn while_view(w: BfWhile) -> SpecWhile
    decreases w,
{
    match w {
        BfWhile::End => SpecWhile::End,
        BfWhile::Linear(c) => SpecWhile::Linear(c),
        BfWhile::Nested(b) => SpecWhile::Nested(elem_view(*b)),
    }
}

/// The abstraction of one instruction.
pub open spec fn elem_view(e: BfStackElem) -> SpecElem
    decreases e,
{
    match e {
        BfStackElem::Single(c) => SpecElem::Single(c),
        BfStackElem::While(v) => SpecElem::While(body_view(v@)),
    }
}

/// The abstraction of a loop body.
pub open spec fn body_view(s: Seq<BfWhile>) -> Seq<SpecWhile>
    decreases s,
{
    if s.len() == 0 {
        Seq::empty()
    } else {
        body_view(s.drop_last()).push(while_view(s.last()))
    }
}

/// The abstraction of a program: its instructions in order.
pub open spec fn stack_view(s: Seq<BfStackElem>) -> Seq<SpecElem>
    decreases s,
{
    if s.len() == 0 {
        Seq::empty()
    } else {
        stack_view(s.drop_last()).push(elem_view(s.last()))
    }
}

/// The abstraction of the stack of open loop bodies, innermost last.
pub open spec fn opens_view(s: Seq<Vec<BfWhile>>) -> Seq<Seq<SpecWhile>>
    decreases s,
{
    if s.len() == 0 {
        Seq::empty()
    } else {
        opens_view(s.drop_last()).push(body_view(s.last()@))
    }
}

pub broadcast proof fn lemma_body_view_push(s: Seq<BfWhile>, w: BfWhile)
    ensures
        #[trigger] body_view(s.push(w)) == body_view(s).push(while_view(w)),
{
    assert(s.push(w).drop_last() =~= s);
    assert(s.push(w).last() == w);
}

pub broadcast proof fn lemma_stack_view_push(s: Seq<BfStackElem>, e: BfStackElem)
    ensures
        #[trigger] stack_view(s.push(e)) == stack_view(s).push(elem_view(e)),
{
    assert(s.push(e).drop_last() =~= s);
    assert(s.push(e).last() == e);
}

pub broadcast proof fn lemma_opens_view_push(s: Seq<Vec<BfWhile>>, v: Vec<BfWhile>)
    ensures
        #[trigger] opens_view(s.push(v)) == opens_view(s).push(body_view(v@)),
{
    assert(s.push(v).drop_last() =~= s);
    assert(s.push(v).last() == v);
}

pub broadcast proof fn lemma_opens_view_len(s: Seq<Vec<BfWhile>>)
    ensures
        #[trigger] opens_view(s).len() == s.len(),
    decreases s,
{
    if s.len() > 0 {
        lemma_opens_view_len(s.drop_last());
    }
}

pub broadcast proof fn lemma_opens_view_last(s: Seq<Vec<BfWhile>>)
    requires
        s.len() > 0,
    ensures
        #[trigger] opens_view(s).last() == body_view(s.last()@),
        opens_view(s).drop_last() == opens_view(s.drop_last()),
{
    lemma_opens_view_len(s);
    assert(opens_view(s.drop_last()).push(body_view(s.last()@)).drop_last() =~= opens_view(
        s.drop_last(),
    ));
}

pub broadcast proof fn lemma_add_push<T>(a: Seq<T>, b: Seq<T>, x: T)
    ensures
        #[trigger] (a + b.push(x)) == (a + b).push(x),
{
    assert(a + b.push(x) =~= (a + b).push(x));
}

pub broadcast proof fn lemma_body_view_len(s: Seq<BfWhile>)
    ensures
        #[trigger] body_view(s).len() == s.len(),
    decreases s,
{
    if s.len() > 0 {
        lemma_body_view_len(s.drop_last());
    }
}

pub broadcast proof fn lemma_stack_view_len(s: Seq<BfStackElem>)
    ensures
        #[trigger] stack_view(s).len() == s.len(),
    decreases s,
{
    if s.len() > 0 {
        lemma_stack_view_len(s.drop_last());
    }
}

pub broadcast proof fn lemma_stack_view_index(s: Seq<BfStackElem>, i: int)
    requires
        0 <= i < s.len(),
    ensures
        #[trigger] stack_view(s)[i] == elem_view(s[i]),
    decreases s,
{
    lemma_stack_view_len(s);
    if i < s.len() - 1 {
        lemma_stack_view_index(s.drop_last(), i);
        lemma_stack_view_len(s.drop_last());
    }
}

pub broadcast proof fn lemma_body_view_index(s: Seq<BfWhile>, i: int)
    requires
        0 <= i < s.len(),
    ensures
        #[trigger] body_view(s)[i] == while_view(s[i]),
    decreases s,
{
    lemma_body_view_len(s);
    if i < s.len() - 1 {
        lemma_body_view_index(s.drop_last(), i);
        lemma_body_view_len(s.drop_last());
    }
}

/// The mode of the parsing step machine.
pub enum ParseMode {
    /// Ordinary scanning.
    Normal,
    /// Inside a comment: everything up to the next marker is skipped.
    Comment,
    /// Just after a repetition open symbol: an operation symbol is expected.
    RepOp,
    /// Inside a repetition group after its operation symbol: digits or the
    /// close symbol are expected.
    RepDigits { op: char, count: nat, has_digits: bool },
}

/// The state of the parsing step machine.
pub struct ParseState {
    /// The top-level instructions built so far.
    pub prog: Seq<SpecElem>,
    /// The open loop bodies, outermost first.
    pub opens: Seq<Seq<SpecWhile>>,
    /// The current mode.
    pub mode: ParseMode,
}

/// The machine's starting state: nothing built, no open loops, ordinary mode.
pub open spec fn parse_init() -> ParseState {
    ParseState { prog: Seq::empty(), opens: Seq::empty(), mode: ParseMode::Normal }
}

/// Append one plain operation: to the program at top level, or to the
/// innermost open loop body.
pub open spec fn push_single(st: ParseState, c: char) -> ParseState {
    if st.opens.len() == 0 {
        ParseState { prog: st.prog.push(SpecElem::Single(c)), ..st }
    } else {
        ParseState {
            opens: st.opens.drop_last().push(st.opens.last().push(SpecWhile::Linear(c))),
            ..st
        }
    }
}

/// Append a completed loop body: as an instruction at top level, or as a
/// nested loop inside the innermost open body.
pub open spec fn push_loop(st: ParseState, body: Seq<SpecWhile>) -> ParseState {
    if st.opens.len() == 0 {
        ParseState { prog: st.prog.push(SpecElem::While(body)), ..st }
    } else {
        ParseState {
            opens: st.opens.drop_last().push(
                st.opens.last().push(SpecWhile::Nested(SpecElem::While(body))),
            ),
            ..st
        }
    }
}

/// Append `n` copies of one plain operation.
pub open spec fn push_single_n(st: ParseState, c: char, n: nat) -> ParseState
    decreases n,
{
    if n == 0 {
        st
    } else {
        push_single_n(push_single(st, c), c, (n - 1) as nat)
    }
}

/// One step of the parsing machine: consume the character `c`.
///
/// Whitespace is ignored in every mode. In ordinary mode the structural
/// symbols open or close comments, loops and repetition groups, and every
/// other character is kept as an opaque operation; whether it is a real
/// operation is deliberately left to the evaluator.
pub open spec fn parse_step(st: ParseState, c: char) -> Result<ParseState, Error> {
    if is_whitespace(c) {
        Ok(st)
    } else {
        match st.mode {
            ParseMode::Comment => {
                if c == BfTokens::FSL {
                    Ok(ParseState { mode: ParseMode::Normal, ..st })
                } else {
                    Ok(st)
                }
            },
            ParseMode::RepOp => {
                if is_rep_op(c) {
                    Ok(
                        ParseState {
                            mode: ParseMode::RepDigits { op: c, count: 0, has_digits: false },
                            ..st
                        },
                    )
                } else {
                    Err(Error::SyntaxError(SyntaxError::ExpectedSymbol(c)))
                }
            },
            ParseMode::RepDigits { op, count, has_digits } => {
                if is_digit(c) {
                    Ok(
                        ParseState {
                            mode: ParseMode::RepDigits {
                                op,
                                count: count * 10 + digit_value(c),
                                has_digits: true,
                            },
                            ..st
                        },
                    )
                } else if c == BfTokens::RTB {
                    if has_digits && count > usize::MAX as nat {
                        Err(Error::SyntaxError(SyntaxError::ParseNumError))
                    } else {
                        Ok(
                            push_single_n(
                                ParseState { mode: ParseMode::Normal, ..st },
                                op,
                                if has_digits {
                                    count
                                } else {
                                    1
                                },
                            ),
                        )
                    }
                } else if c == BfTokens::FSL {
                    Err(Error::SyntaxError(SyntaxError::CommentInsideBracket))
                } else {
                    Err(Error::SyntaxError(SyntaxError::OnlyDigitsAllowedHere(c)))
                }
            },
            ParseMode::Normal => {
                if c == BfTokens::FSL {
                    Ok(ParseState { mode: ParseMode::Comment, ..st })
                } else if c == BfTokens::LLP {
                    Ok(ParseState { opens: st.opens.push(Seq::empty()), ..st })
                } else if c == BfTokens::RLP {
                    if st.opens.len() == 0 {
                        Err(Error::MismatchedLoop)
                    } else {
                        Ok(
                            push_loop(
                                ParseState { opens: st.opens.drop_last(), ..st },
                                st.opens.last().push(SpecWhile::End),
                            ),
                        )
                    }
                } else if c == BfTokens::LTB {
                    Ok(ParseState { mode: ParseMode::RepOp, ..st })
                } else if c == BfTokens::RTB {
                    Err(Error::MismatchedBrackets)
                } else {
                    Ok(push_single(st, c))
                }
            },
        }
    }
}

/// Run the machine from `st` over the first `i` characters of `s`.
pub open spec fn parse_run_from(st: ParseState, s: Seq<char>, i: int) -> Result<ParseState, Error>
    decreases i,
{
    if i <= 0 {
        Ok(st)
    } else {
        match parse_run_from(st, s, i - 1) {
            Ok(m) => parse_step(m, s[i - 1]),
            Err(e) => Err(e),
        }
    }
}

/// Close out the machine at the end of the input: an open comment, an open
/// repetition group or an open loop is an error; otherwise the program built
/// so far is the result.
pub open spec fn parse_finish(st: ParseState) -> Result<Seq<SpecElem>, Error> {
    match st.mode {
        ParseMode::Comment => Err(Error::CommentTagNotClosed),
        ParseMode::RepOp => Err(Error::SyntaxError(SyntaxError::UnclosedParanthesis)),
        ParseMode::RepDigits { .. } => Err(Error::SyntaxError(SyntaxError::UnclosedParanthesis)),
        ParseMode::Normal => {
            if st.opens.len() > 0 {
                Err(Error::UnterminatedLoop)
            } else {
                Ok(st.prog)
            }
        },
    }
}

/// What parsing a whole source means: run the machine over every character,
/// then close it out.
pub open spec fn spec_parse(s: Seq<char>) -> Result<Seq<SpecElem>, Error> {
    match parse_run_from(parse_init(), s, s.len() as int) {
        Ok(st) => parse_finish(st),
        Err(e) => Err(e),
    }
}

/// The count carried by a repetition-group mode.
pub open spec fn rep_count(m: ParseMode) -> nat {
    match m {
        ParseMode::RepDigits { count, .. } => count,
        _ => 0,
    }
}

/// The operation symbol carried by a repetition-group mode.
pub open spec fn rep_op(m: ParseMode) -> char {
    match m {
        ParseMode::RepDigits { op, .. } => op,
        _ => ' ',
    }
}

/// Whether a repetition-group mode has seen at least one digit.
pub open spec fn rep_has(m: ParseMode) -> bool {
    match m {
        ParseMode::RepDigits { has_digits, .. } => has_digits,
        _ => false,
    }
}

/// Once the machine has failed, the failure persists to the end of the run.
pub proof fn lemma_run_err_persists(st: ParseState, s: Seq<char>, i: int, j: int)
    requires
        0 <= i <= j,
        parse_run_from(st, s, i) is Err,
    ensures
        parse_run_from(st, s, j) == parse_run_from(st, s, i),
    decreases j - i,
{
    if j > i {
        lemma_run_err_persists(st, s, i, j - 1);
    }
}

/// A failing step at position `i` decides the whole parse.
proof fn lemma_step_err_parse(s: Seq<char>, i: int, gst: ParseState, e: Error)
    requires
        0 <= i < s.len(),
        parse_run_from(parse_init(), s, i) == Ok::<ParseState, Error>(gst),
        parse_step(gst, s[i]) == Err::<ParseState, Error>(e),
    ensures
        spec_parse(s) == Err::<Seq<SpecElem>, Error>(e),
{
    assert(parse_run_from(parse_init(), s, i + 1) == Err::<ParseState, Error>(e));
    lemma_run_err_persists(parse_init(), s, i + 1, s.len() as int);
}

/// Whether, from position `i` on, the source holds nothing but whitespace
/// and properly closed comments (`in_comment` says whether position `i` is
/// inside a comment).
pub open spec fn ws_comments_from(s: Seq<char>, i: int, in_comment: bool) -> bool
    decreases s.len() - i,
{
    if i < 0 || i >= s.len() {
        !in_comment
    } else if is_whitespace(s[i]) {
        ws_comments_from(s, i + 1, in_comment)
    } else if s[i] == BfTokens::FSL {
        ws_comments_from(s, i + 1, !in_comment)
    } else {
        in_comment && ws_comments_from(s, i + 1, in_comment)
    }
}

/// Whether the source holds nothing but whitespace and closed comments.
pub open spec fn only_ws_and_comments(s: Seq<char>) -> bool {
    ws_comments_from(s, 0, false)
}

proof fn lemma_ws_comments_run(s: Seq<char>, i: int, ic: bool)
    requires
        0 <= i <= s.len(),
        ws_comments_from(s, i, ic),
        parse_run_from(parse_init(), s, i) == Ok::<ParseState, Error>(
            ParseState {
                prog: Seq::empty(),
                opens: Seq::empty(),
                mode: if ic {
                    ParseMode::Comment
                } else {
                    ParseMode::Normal
                },
            },
        ),
    ensures
        spec_parse(s) == Ok::<Seq<SpecElem>, Error>(Seq::<SpecElem>::empty()),
    decreases s.len() - i,
{
    if i < s.len() {
        let c = s[i];
        let ic2: bool = if is_whitespace(c) {
            ic
        } else if c == BfTokens::FSL {
            !ic
        } else {
            ic
        };
        assert(parse_run_from(parse_init(), s, i + 1) == Ok::<ParseState, Error>(
            ParseState {
                prog: Seq::empty(),
                opens: Seq::empty(),
                mode: if ic2 {
                    ParseMode::Comment
                } else {
                    ParseMode::Normal
                },
            },
        ));
        lemma_ws_comments_run(s, i + 1, ic2);
    }
}

/// A source of nothing but whitespace and closed comments parses to the
/// empty program.
pub proof fn lemma_only_ws_comments_parse(s: Seq<char>)
    requires
        only_ws_and_comments(s),
    ensures
        spec_parse(s) == Ok::<Seq<SpecElem>, Error>(Seq::<SpecElem>::empty()),
{
    lemma_ws_comments_run(s, 0, false);
}

proof fn lemma_run_prefix(st: ParseState, s: Seq<char>, t: Seq<char>, i: int)
    requires
        0 <= i <= s.len(),
    ensures
        parse_run_from(st, s + t, i) == parse_run_from(st, s, i),
    decreases i,
{
    if i > 0 {
        lemma_run_prefix(st, s, t, i - 1);
        assert((s + t)[i - 1] == s[i - 1]);
    }
}

/// Running the machine over `s + t` is running it over `s`, then over `t`.
pub proof fn lemma_run_append(st: ParseState, s: Seq<char>, t: Seq<char>, j: int)
    requires
        0 <= j <= t.len(),
    ensures
        parse_run_from(st, s + t, s.len() + j) == (match parse_run_from(st, s, s.len() as int) {
            Ok(m) => parse_run_from(m, t, j),
            Err(e) => Err(e),
        }),
    decreases j,
{
    if j == 0 {
        lemma_run_prefix(st, s, t, s.len() as int);
    } else {
        lemma_run_append(st, s, t, j - 1);
        assert((s + t)[s.len() + j - 1] == t[j - 1]);
    }
}

proof fn lemma_push_single_n_snoc(st: ParseState, c: char, n: nat)
    ensures
        push_single_n(push_single(st, c), c, n) == push_single(push_single_n(st, c, n), c),
    decreases n,
{
    if n > 0 {
        lemma_push_single_n_snoc(push_single(st, c), c, (n - 1) as nat);
    }
}

proof fn lemma_push_single_n_mode(st: ParseState, c: char, n: nat)
    ensures
        push_single_n(st, c, n).mode == st.mode,
    decreases n,
{
    if n > 0 {
        lemma_push_single_n_mode(push_single(st, c), c, (n - 1) as nat);
    }
}

proof fn lemma_run_op_copies(st: ParseState, op: char, n: nat)
    requires
        st.mode is Normal,
        is_rep_op(op),
    ensures
        parse_run_from(st, Seq::new(n, |k: int| op), n as int) == Ok::<ParseState, Error>(
            push_single_n(st, op, n),
        ),
        push_single_n(st, op, n).mode is Normal,
    decreases n,
{
    lemma_push_single_n_mode(st, op, n);
    if n > 0 {
        lemma_run_op_copies(st, op, (n - 1) as nat);
        let ops1 = Seq::new((n - 1) as nat, |k: int| op);
        let ops = Seq::new(n, |k: int| op);
        assert(parse_run_from(st, ops, n as int - 1) == parse_run_from(st, ops1, n as int - 1))
            by {
            lemma_run_prefix_new(st, op, n, n as int - 1);
        }
        assert(parse_step(push_single_n(st, op, (n - 1) as nat), op) == Ok::<ParseState, Error>(
            push_single(push_single_n(st, op, (n - 1) as nat), op),
        ));
        lemma_push_single_n_snoc(st, op, (n - 1) as nat);
    }
}

proof fn lemma_run_prefix_new(st: ParseState, op: char, n: nat, i: int)
    requires
        0 <= i < n,
    ensures
        parse_run_from(st, Seq::new(n, |k: int| op), i) == parse_run_from(
            st,
            Seq::new((n - 1) as nat, |k: int| op),
            i,
        ),
    decreases i,
{
    if i > 0 {
        lemma_run_prefix_new(st, op, n, i - 1);
    }
}

proof fn lemma_rep_digits_run(st: ParseState, op: char, digits: Seq<char>, j: int)
    requires
        0 <= j <= digits.len(),
        all_digits(digits),
        st.mode == (ParseMode::RepDigits { op, count: 0, has_digits: false }),
    ensures
        parse_run_from(st, digits, j) == Ok::<ParseState, Error>(
            ParseState {
                mode: if j == 0 {
                    ParseMode::RepDigits { op, count: 0, has_digits: false }
                } else {
                    ParseMode::RepDigits {
                        op,
                        count: digits_value(digits.take(j)),
                        has_digits: true,
                    }
                },
                ..st
            },
        ),
    decreases j,
{
    if j > 0 {
        lemma_rep_digits_run(st, op, digits, j - 1);
        assert(is_digit(digits[j - 1]));
        assert(digits.take(j).drop_last() =~= digits.take(j - 1));
        assert(digits.take(j).last() == digits[j - 1]);
        assert(!is_whitespace(digits[j - 1]));
    }
}

/// A repetition group `(op digits)` parses exactly as its expansion: the
/// run of the machine over the group equals its run over the spliced-in
/// copies of `op`, one per counted repetition, and both append exactly
/// those copies to the state. A group without digits counts as one copy.
pub proof fn lemma_rep_group_equiv(st: ParseState, op: char, digits: Seq<char>)
    requires
        st.mode is Normal,
        is_rep_op(op),
        all_digits(digits),
        digits_value(digits) <= usize::MAX as nat,
    ensures
        ({
            let group = seq![BfTokens::LTB, op] + digits + seq![BfTokens::RTB];
            let n: nat = if digits.len() == 0 {
                1
            } else {
                digits_value(digits)
            };
            &&& parse_run_from(st, group, group.len() as int) == Ok::<ParseState, Error>(
                push_single_n(st, op, n),
            )
            &&& parse_run_from(st, group, group.len() as int) == parse_run_from(
                st,
                Seq::new(n, |k: int| op),
                n as int,
            )
        }),
{
    let pre = seq![BfTokens::LTB, op];
    let group = pre + digits + seq![BfTokens::RTB];
    let n: nat = if digits.len() == 0 {
        1
    } else {
        digits_value(digits)
    };
    assert(!is_whitespace(BfTokens::LTB));
    assert(!is_whitespace(op) && !is_digit(op));
    let st1 = ParseState { mode: ParseMode::RepOp, ..st };
    let st2 = ParseState { mode: ParseMode::RepDigits { op, count: 0, has_digits: false }, ..st };
    assert(pre[0] == BfTokens::LTB && pre[1] == op);
    assert(parse_run_from(st, pre, 0) == Ok::<ParseState, Error>(st));
    assert(parse_step(st, BfTokens::LTB) == Ok::<ParseState, Error>(st1));
    assert(parse_run_from(st, pre, 1) == Ok::<ParseState, Error>(st1));
    assert(parse_step(st1, op) == Ok::<ParseState, Error>(st2));
    assert(parse_run_from(st, pre, 2) == Ok::<ParseState, Error>(st2));
    lemma_rep_digits_run(st2, op, digits, digits.len() as int);
    lemma_run_append(st, pre, digits, digits.len() as int);
    assert(digits.take(digits.len() as int) =~= digits);
    let st3 = ParseState {
        mode: if digits.len() == 0 {
            ParseMode::RepDigits { op, count: 0, has_digits: false }
        } else {
            ParseMode::RepDigits { op, count: digits_value(digits), has_digits: true }
        },
        ..st2
    };
    let gd = pre + digits;
    assert(parse_run_from(st2, digits, digits.len() as int) == Ok::<ParseState, Error>(st3));
    assert(parse_run_from(st, gd, gd.len() as int) == Ok::<ParseState, Error>(st3));
    assert(!is_whitespace(BfTokens::RTB) && !is_digit(BfTokens::RTB));
    assert(ParseState { mode: ParseMode::Normal, ..st3 } == st);
    assert(parse_step(st3, BfTokens::RTB) == Ok::<ParseState, Error>(push_single_n(st, op, n)));
    let tail = seq![BfTokens::RTB];
    assert(tail[0] == BfTokens::RTB);
    assert(parse_run_from(st3, tail, 0) == Ok::<ParseState, Error>(st3));
    assert(parse_run_from(st3, tail, 1) == Ok::<ParseState, Error>(push_single_n(st, op, n)));
    lemma_run_append(st, gd, tail, 1);
    assert(parse_run_from(st, gd + tail, gd.len() as int + 1) == Ok::<ParseState, Error>(
        push_single_n(st, op, n),
    ));
    assert(gd + tail =~= group);
    assert(group.len() as int == gd.len() + 1);
    assert(parse_run_from(st, group, group.len() as int) == Ok::<ParseState, Error>(
        push_single_n(st, op, n),
    ));
    lemma_run_op_copies(st, op, n);
}

/// The scanning mode of the executable parser. It differs from [`ParseMode`]
/// only in how the repetition count is carried: as a machine integer plus an
/// overflow flag, rather than as an unbounded natural number.
#[derive(Clone, Copy)]
enum Mode {
    Normal,
    Comment,
    RepOp,
    RepDigits { op: char, count: usize, has_digits: bool, overflow: bool },
}

/// The executable mode carries the same information as the machine's mode;
/// when the accumulated count has overflowed the machine range, the flag
/// records that the mathematical count is out of range.
spec fn mode_couple(m: Mode, g: ParseMode) -> bool {
    match m {
        Mode::Normal => g is Normal,
        Mode::Comment => g is Comment,
        Mode::RepOp => g is RepOp,
        Mode::RepDigits { op, count, has_digits, overflow } => {
            &&& g is RepDigits
            &&& rep_op(g) == op
            &&& rep_has(g) == has_digits
            &&& (overflow <==> rep_count(g) > usize::MAX as nat)
            &&& (!overflow ==> rep_count(g) == count as nat)
        },
    }
}

/// Whether `ch` is significant: everything but whitespace is.
pub fn is_useless(ch: char) -> (r: bool)
    ensures
        r == !is_whitespace(ch),
{
    match ch {
        ' ' | '\n' | '\t' => false,
        _ => true,
    }
}

/// The program representation a source string parses to: the top-level
/// instructions in order.
#[derive(Debug)]
pub struct BfStack {
    pub item: Vec<BfStackElem>,
    pub length: usize,
}

impl BfStack {
    /// Well-formedness: the recorded length is the number of instructions.
    pub open spec fn wf(&self) -> bool {
        self.length == self.item@.len()
    }

    /// An empty stack.
    pub fn init_stack() -> (s: Self)
        ensures
            s.wf(),
            s.item@.len() == 0,
    {
        BfStack { item: Vec::new(), length: 0 }
    }

    /// Append one instruction.
    fn push_stack(&mut self, elem: BfStackElem)
        requires
            old(self).wf(),
        ensures
            final(self).wf(),
            final(self).item@ == old(self).item@.push(elem),
    {
        self.item.push(elem);
        self.length = self.item.len();
    }

    /// Build the program from a source string: the executable form of the
    /// parsing step machine, one significant character per step.
    ///
    /// Appends the parsed instructions to the instructions already held, and
    /// returns exactly the error [`spec_parse`] assigns to the source, if
    /// any. On an error the instructions completed before the failing
    /// character remain.
    #[verifier::loop_isolation(false)]
    #[verifier::rlimit(60)]
    pub fn stackify(&mut self, source: &str) -> (r: Result<(), Error>)
        requires
            old(self).wf(),
        ensures
            final(self).wf(),
            match spec_parse(source@) {
                Ok(p) => r == Ok::<(), Error>(()) && stack_view(final(self).item@) == stack_view(
                    old(self).item@,
                ) + p,
                Err(e) => r == Err::<(), Error>(e),
            },
    {
        broadcast use lemma_stack_view_push, lemma_body_view_push, lemma_opens_view_push,
            lemma_opens_view_len, lemma_opens_view_last, lemma_add_push;

        let n = source.unicode_len();
        let mut i: usize = 0;
        let mut opens: Vec<Vec<BfWhile>> = Vec::new();
        let mut mode = Mode::Normal;
        let ghost mut gst: ParseState = parse_init();
        assert(stack_view(self.item@) =~= stack_view(old(self).item@) + gst.prog);
        while i < n
            invariant
                i <= n,
                self.wf(),
                parse_run_from(parse_init(), source@, i as int) == Ok::<ParseState, Error>(gst),
                stack_view(self.item@) == stack_view(old(self).item@) + gst.prog,
                opens_view(opens@) == gst.opens,
                mode_couple(mode, gst.mode),
            decreases n - i,
        {
            let c = source.get_char(i);
            let ghost prev = gst;
            if !is_useless(c) {
                // whitespace is ignored in every mode
            } else {
                match mode {
                    Mode::Comment => {
                        if c == BfTokens::FSL {
                            mode = Mode::Normal;
                            proof {
                                gst = ParseState { mode: ParseMode::Normal, ..prev };
                            }
                        }
                    },
                    Mode::RepOp => {
                        if c == BfTokens::ADD || c == BfTokens::SUB || c == BfTokens::LFT || c
                            == BfTokens::RGT {
                            mode = Mode::RepDigits { op: c, count: 0, has_digits: false, overflow: false };
                            proof {
                                gst = ParseState {
                                    mode: ParseMode::RepDigits { op: c, count: 0, has_digits: false },
                                    ..prev
                                };
                            }
                        } else {
                            proof {
                                lemma_step_err_parse(
                                    source@,
                                    i as int,
                                    prev,
                                    Error::SyntaxError(SyntaxError::ExpectedSymbol(c)),
                                );
                            }
                            return Err(Error::SyntaxError(SyntaxError::ExpectedSymbol(c)));
                        }
                    },
                    Mode::RepDigits { op, count, has_digits, overflow } => {
                        let cu = c as u32;
                        if 48 <= cu && cu <= 57 {
                            let d = (cu - 48) as usize;
                            let mut nover = overflow;
                            let mut ncount: usize = 0;
                            if !overflow {
                                match count.checked_mul(10) {
                                    Some(x) => {
                                        match x.checked_add(d) {
                                            Some(y) => { ncount = y; },
                                            None => { nover = true; },
                                        }
                                    },
                                    None => { nover = true; },
                                }
                            }
                            mode = Mode::RepDigits { op, count: ncount, has_digits: true, overflow: nover };
                            proof {
                                gst = ParseState {
                                    mode: ParseMode::RepDigits {
                                        op,
                                        count: rep_count(prev.mode) * 10 + digit_value(c),
                                        has_digits: true,
                                    },
                                    ..prev
                                };
                            }
                        } else if c == BfTokens::RTB {
                            if has_digits && overflow {
                                proof {
                                    lemma_step_err_parse(
                                        source@,
                                        i as int,
                                        prev,
                                        Error::SyntaxError(SyntaxError::ParseNumError),
                                    );
                                }
                                return Err(Error::SyntaxError(SyntaxError::ParseNumError));
                            }
                            let cnt: usize = if has_digits {
                                count
                            } else {
                                1
                            };
                            mode = Mode::Normal;
                            let ghost target = (match parse_step(prev, c) {
                                Ok(t) => t,
                                Err(_) => prev,
                            });
                            proof {
                                gst = ParseState { mode: ParseMode::Normal, ..prev };
                                assert(push_single_n(gst, op, cnt as nat) == target);
                            }
                            let mut k: usize = 0;
                            while k < cnt
                                invariant
                                    k <= cnt,
                                    self.wf(),
                                    stack_view(self.item@) == stack_view(old(self).item@)
                                        + gst.prog,
                                    opens_view(opens@) == gst.opens,
                                    gst.mode is Normal,
                                    push_single_n(gst, op, (cnt - k) as nat) == target,
                                decreases cnt - k,
                            {
                                if opens.len() == 0 {
                                    self.push_stack(BfStackElem::Single(op));
                                } else {
                                    let mut b = opens.pop().unwrap();
                                    b.push(BfWhile::Linear(op));
                                    opens.push(b);
                                }
                                proof {
                                    gst = push_single(gst, op);
                                }
                                k = k + 1;
                            }
                            proof {
                                gst = target;
                            }
                        } else if c == BfTokens::FSL {
                            proof {
                                lemma_step_err_parse(
                                    source@,
                                    i as int,
                                    prev,
                                    Error::SyntaxError(SyntaxError::CommentInsideBracket),
                                );
                            }
                            return Err(Error::SyntaxError(SyntaxError::CommentInsideBracket));
                        } else {
                            proof {
                                lemma_step_err_parse(
                                    source@,
                                    i as int,
                                    prev,
                                    Error::SyntaxError(SyntaxError::OnlyDigitsAllowedHere(c)),
                                );
                            }
                            return Err(Error::SyntaxError(SyntaxError::OnlyDigitsAllowedHere(c)));
                        }
                    },
                    Mode::Normal => {
                        if c == BfTokens::FSL {
                            mode = Mode::Comment;
                            proof {
                                gst = ParseState { mode: ParseMode::Comment, ..prev };
                            }
                        } else if c == BfTokens::LLP {
                            opens.push(Vec::new());
                            proof {
                                gst = ParseState { opens: prev.opens.push(Seq::empty()), ..prev };
                                assert(body_view(Seq::<BfWhile>::empty()) == Seq::<
                                    SpecWhile,
                                >::empty());
                            }
                        } else if c == BfTokens::RLP {
                            if opens.len() == 0 {
                                proof {
                                    lemma_step_err_parse(
                                        source@,
                                        i as int,
                                        prev,
                                        Error::MismatchedLoop,
                                    );
                                }
                                return Err(Error::MismatchedLoop);
                            }
                            let ghost o0 = opens@;
                            let mut b = opens.pop().unwrap();
                            b.push(BfWhile::End);
                            let ghost body = prev.opens.last().push(SpecWhile::End);
                            proof {
                                lemma_opens_view_len(o0);
                                lemma_opens_view_last(o0);
                                assert(body_view(b@) == body);
                                gst = push_loop(
                                    ParseState { opens: prev.opens.drop_last(), ..prev },
                                    body,
                                );
                            }
                            if opens.len() == 0 {
                                self.push_stack(BfStackElem::While(b));
                                proof {
                                    assert(elem_view(BfStackElem::While(b)) == SpecElem::While(
                                        body,
                                    ));
                                    assert(stack_view(self.item@) == stack_view(old(self).item@)
                                        + gst.prog);
                                    assert(opens_view(opens@) == gst.opens);
                                }
                            } else {
                                let ghost o1 = opens@;
                                let mut ob = opens.pop().unwrap();
                                let ghost ob0 = ob@;
                                ob.push(BfWhile::Nested(Box::new(BfStackElem::While(b))));
                                opens.push(ob);
                                proof {
                                    lemma_opens_view_last(o1);
                                    assert(while_view(
                                        BfWhile::Nested(Box::new(BfStackElem::While(b))),
                                    ) == SpecWhile::Nested(SpecElem::While(body)));
                                    assert(body_view(ob0) == prev.opens.drop_last().last());
                                    assert(opens_view(opens@) == gst.opens);
                                    assert(stack_view(self.item@) == stack_view(old(self).item@)
                                        + gst.prog);
                                }
                            }
                        } else if c == BfTokens::LTB {
                            mode = Mode::RepOp;
                            proof {
                                gst = ParseState { mode: ParseMode::RepOp, ..prev };
                            }
                        } else if c == BfTokens::RTB {
                            proof {
                                lemma_step_err_parse(
                                    source@,
                                    i as int,
                                    prev,
                                    Error::MismatchedBrackets,
                                );
                            }
                            return Err(Error::MismatchedBrackets);
                        } else {
                            if opens.len() == 0 {
                                self.push_stack(BfStackElem::Single(c));
                            } else {
                                let mut b = opens.pop().unwrap();
                                b.push(BfWhile::Linear(c));
                                opens.push(b);
                            }
                            proof {
                                gst = push_single(prev, c);
                            }
                        }
                    },
                }
            }
            proof {
                assert(parse_step(prev, c) == Ok::<ParseState, Error>(gst));
            }
            i = i + 1;
        }
        match mode {
            Mode::Comment => {
                return Err(Error::CommentTagNotClosed);
            },
            Mode::RepOp => {
                return Err(Error::SyntaxError(SyntaxError::UnclosedParanthesis));
            },
            Mode::RepDigits { .. } => {
                return Err(Error::SyntaxError(SyntaxError::UnclosedParanthesis));
            },
            Mode::Normal => {
                if opens.len() > 0 {
                    return Err(Error::UnterminatedLoop);
                }
                Ok(())
            },
        }
    }

    /// Remove the front instruction: the evaluator consumes the program
    /// destructively, front to back.
    pub fn pop_stack(&mut self)
        requires
            old(self).wf(),
            old(self).item@.len() > 0,
        ensures
            final(self).wf(),
            final(self).item@ == old(self).item@.drop_first(),
    {
        self.item.remove(0);
        self.length = self.item.len();
        assert(self.item@ =~= old(self).item@.drop_first());
    }
}

} // verus!
