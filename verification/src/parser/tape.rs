//! The memory tape: a growable, capped sequence of byte cells with a cursor.
//!
//! Cell values wrap at the 8-bit boundary. The tape starts with one zeroed
//! cell and grows lazily, one zeroed cell at a time, up to [`TAPE_SIZE`]
//! cells; cells are never removed. The spec functions in this module are the
//! mathematical model of every tape transition; the evaluator's specification
//! reuses them.
use vstd::prelude::*;
use vstd::string::StrSliceExecFns;

use crate::Error;
use crate::parser::stack::toks::is_digit;
use crate::parser::stack::toks::digit_value;
use crate::parser::stack::toks::all_digits;
use crate::parser::stack::toks::digits_value;

verus! {

/// The capacity cap: the tape never holds more than this many cells.
pub const TAPE_SIZE: usize = 255;

/// The largest value a cell can hold; incrementing past it wraps to zero.
pub const CELL_SIZE: u8 = 255;

/// One unit of tape memory: an unsigned 8-bit value with wrapping arithmetic.
#[derive(Debug, Clone, Copy, PartialEq, Eq, Structural)]
pub struct BfCell {
    pub value: u8,
}

/// `v + 1` with wraparound: incrementing 255 yields 0.
pub open spec fn wrap_inc(v: u8) -> u8 {
    if v < CELL_SIZE {
        (v + 1) as u8
    } else {
        0
    }
}

/// `v - 1` with wraparound: decrementing 0 yields 255.
pub open spec fn wrap_dec(v: u8) -> u8 {
    if v > 0 {
        (v - 1) as u8
    } else {
        255
    }
}

impl BfCell {
    /// A fresh, zero-valued cell.
    fn create_cell() -> (c: Self)
        ensures
            c.value == 0,
    {
        BfCell { value: 0u8 }
    }

    /// Increment with wraparound.
    fn inc_cell(&mut self)
        ensures
            final(self).value == wrap_inc(old(self).value),
    {
        if self.value < CELL_SIZE {
            self.value = self.value + 1;
        } else {
            self.value = 0;
        }
    }

    /// Decrement with wraparound.
    fn dec_cell(&mut self)
        ensures
            final(self).value == wrap_dec(old(self).value),
    {
        if self.value > 0 {
            self.value = self.value - 1;
        } else {
            self.value = 255;
        }
    }

    /// Overwrite the cell's value.
    fn put_cell(&mut self, input: u8)
        ensures
            final(self).value == input,
    {
        self.value = input;
    }
}

/// Grow by one zeroed cell, unless the capacity cap is already reached.
pub open spec fn spec_grow(cells: Seq<u8>) -> Seq<u8> {
    if cells.len() < TAPE_SIZE {
        cells.push(0u8)
    } else {
        cells
    }
}

/// Where the cursor stands after the growth path: on the last cell.
pub open spec fn spec_grow_cursor(cells: Seq<u8>) -> int {
    spec_grow(cells).len() - 1
}

/// Moving left: step back one cell, or, at index 0, take the growth path
/// and jump to the last cell.
pub open spec fn spec_move_left(cells: Seq<u8>, cur: int) -> (Seq<u8>, int) {
    if cur > 0 {
        (cells, cur - 1)
    } else {
        (spec_grow(cells), spec_grow_cursor(cells))
    }
}

/// Moving right: at the capacity cap the cursor wraps to index 0; at the
/// high-water mark the tape takes the growth path; otherwise the cursor
/// advances into previously-allocated space.
pub open spec fn spec_move_right(cells: Seq<u8>, cur: int) -> (Seq<u8>, int) {
    if cur >= TAPE_SIZE - 1 {
        (cells, 0)
    } else if cur == cells.len() - 1 {
        (spec_grow(cells), spec_grow_cursor(cells))
    } else {
        (cells, cur + 1)
    }
}

/// Whether `c` is whitespace trimmed from the ends of an input line.
pub open spec fn is_line_ws(c: char) -> bool {
    c == ' ' || c == '\t' || c == '\n' || c == '\r'
}

/// The line with its leading whitespace removed.
pub open spec fn trim_front(s: Seq<char>) -> Seq<char>
    decreases s.len(),
{
    if s.len() > 0 && is_line_ws(s[0]) {
        trim_front(s.drop_first())
    } else {
        s
    }
}

/// The line with its trailing whitespace removed.
pub open spec fn trim_back(s: Seq<char>) -> Seq<char>
    decreases s.len(),
{
    if s.len() > 0 && is_line_ws(s.last()) {
        trim_back(s.drop_last())
    } else {
        s
    }
}

/// The line with surrounding whitespace removed.
pub open spec fn spec_trim(s: Seq<char>) -> Seq<char> {
    trim_back(trim_front(s))
}

/// Whether an input line is accepted: after trimming it is a non-empty digit
/// string whose value fits the 32-bit range the reader uses.
pub open spec fn line_parses(s: Seq<char>) -> bool {
    let t = spec_trim(s);
    t.len() > 0 && all_digits(t) && digits_value(t) <= u32::MAX as nat
}

/// The cell value an accepted input line stores: the number truncated to
/// its low eight bits.
pub open spec fn line_value(s: Seq<char>) -> u8 {
    (digits_value(spec_trim(s)) % 256) as u8
}

/// The growable memory tape with its cursor and high-water mark.
#[derive(Debug)]
pub struct BfTape {
    pub cell_container: Vec<BfCell>,
    pub curr_index: usize,
    pub index_counter: usize,
}

impl BfTape {
    /// The tape's contents as a sequence of byte values.
    pub open spec fn cells(&self) -> Seq<u8> {
        self.cell_container@.map(|_i: int, c: BfCell| c.value)
    }

    /// Well-formedness: the cursor points at an allocated cell, the cell
    /// count respects the cap, and the high-water mark is the last index.
    pub open spec fn wf(&self) -> bool {
        &&& self.curr_index < self.cell_container@.len()
        &&& self.cell_container@.len() <= TAPE_SIZE
        &&& self.index_counter == self.cell_container@.len() - 1
    }

    /// A tape of one zeroed cell, cursor at index 0.
    pub fn init_tape() -> (t: Self)
        ensures
            t.wf(),
            t.cells() =~= seq![0u8],
            t.curr_index == 0,
    {
        let mut container: Vec<BfCell> = Vec::new();
        container.push(BfCell::create_cell());
        BfTape { cell_container: container, curr_index: 0, index_counter: 0 }
    }

    /// The cell under the cursor, or the defensive out-of-bounds error.
    fn get_container(&self) -> (r: Result<&BfCell, Error>)
        ensures
            match r {
                Ok(c) => self.curr_index < self.cells().len() && c.value == self.cells()[self.curr_index as int],
                Err(e) => self.curr_index >= self.cells().len() && e == Error::OutOfTapeIndex(
                    self.curr_index,
                ),
            },
    {
        if self.curr_index < self.cell_container.len() {
            Ok(&self.cell_container[self.curr_index])
        } else {
            Err(Error::OutOfTapeIndex(self.curr_index))
        }
    }

    /// Take the growth path: append one zeroed cell if capacity remains, and
    /// put the cursor on the last cell either way.
    pub fn add_cell(&mut self)
        requires
            old(self).wf(),
        ensures
            final(self).wf(),
            final(self).cells() =~= spec_grow(old(self).cells()),
            final(self).curr_index == spec_grow_cursor(old(self).cells()),
    {
        if self.cell_container.len() < TAPE_SIZE {
            self.cell_container.push(BfCell::create_cell());
            self.index_counter = self.index_counter + 1;
        }
        self.curr_index = self.cell_container.len() - 1;
    }

    /// Move the cursor one cell to the left; at index 0, grow instead and
    /// jump to the newly last cell.
    pub fn move_left(&mut self)
        requires
            old(self).wf(),
        ensures
            final(self).wf(),
            final(self).cells() =~= spec_move_left(old(self).cells(), old(self).curr_index as int).0,
            final(self).curr_index as int == spec_move_left(
                old(self).cells(),
                old(self).curr_index as int,
            ).1,
    {
        if self.curr_index > 0 {
            self.curr_index = self.curr_index - 1;
        } else {
            self.add_cell();
        }
    }

    /// Move the cursor one cell to the right; at the high-water mark grow,
    /// and at the capacity cap wrap the cursor to index 0.
    pub fn move_right(&mut self)
        requires
            old(self).wf(),
        ensures
            final(self).wf(),
            final(self).cells() =~= spec_move_right(old(self).cells(), old(self).curr_index as int).0,
            final(self).curr_index as int == spec_move_right(
                old(self).cells(),
                old(self).curr_index as int,
            ).1,
    {
        if self.curr_index >= TAPE_SIZE - 1 {
            self.curr_index = 0;
        } else if self.curr_index == self.index_counter {
            self.add_cell();
        } else {
            self.curr_index = self.curr_index + 1;
        }
    }

    /// Increment the current cell with wraparound.
    pub fn inc_curr(&mut self) -> (r: Result<(), Error>)
        ensures
            match r {
                Ok(()) => {
                    &&& old(self).curr_index < old(self).cells().len()
                    &&& final(self).cells() =~= old(self).cells().update(
                        old(self).curr_index as int,
                        wrap_inc(old(self).cells()[old(self).curr_index as int]),
                    )
                    &&& final(self).curr_index == old(self).curr_index
                    &&& old(self).wf() ==> final(self).wf()
                },
                Err(e) => {
                    &&& old(self).curr_index >= old(self).cells().len()
                    &&& e == Error::OutOfTapeIndex(old(self).curr_index)
                    &&& *final(self) == *old(self)
                },
            },
    {
        if self.curr_index < self.cell_container.len() {
            let i = self.curr_index;
            let mut cell = self.cell_container[i];
            cell.inc_cell();
            self.cell_container[i] = cell;
            assert(self.cells() =~= old(self).cells().update(
                i as int,
                wrap_inc(old(self).cells()[i as int]),
            ));
            Ok(())
        } else {
            Err(Error::OutOfTapeIndex(self.curr_index))
        }
    }

    /// Decrement the current cell with wraparound.
    pub fn dec_curr(&mut self) -> (r: Result<(), Error>)
        ensures
            match r {
                Ok(()) => {
                    &&& old(self).curr_index < old(self).cells().len()
                    &&& final(self).cells() =~= old(self).cells().update(
                        old(self).curr_index as int,
                        wrap_dec(old(self).cells()[old(self).curr_index as int]),
                    )
                    &&& final(self).curr_index == old(self).curr_index
                    &&& old(self).wf() ==> final(self).wf()
                },
                Err(e) => {
                    &&& old(self).curr_index >= old(self).cells().len()
                    &&& e == Error::OutOfTapeIndex(old(self).curr_index)
                    &&& *final(self) == *old(self)
                },
            },
    {
        if self.curr_index < self.cell_container.len() {
            let i = self.curr_index;
            let mut cell = self.cell_container[i];
            cell.dec_cell();
            self.cell_container[i] = cell;
            assert(self.cells() =~= old(self).cells().update(
                i as int,
                wrap_dec(old(self).cells()[i as int]),
            ));
            Ok(())
        } else {
            Err(Error::OutOfTapeIndex(self.curr_index))
        }
    }

    /// Read the current cell for output.
    pub fn output_cell(&self) -> (r: Result<u8, Error>)
        ensures
            match r {
                Ok(v) => self.curr_index < self.cells().len() && v == self.cells()[self.curr_index as int],
                Err(e) => self.curr_index >= self.cells().len() && e == Error::OutOfTapeIndex(
                    self.curr_index,
                ),
            },
    {
        match self.get_container() {
            Ok(cell) => Ok(cell.value),
            Err(e) => Err(e),
        }
    }

    /// Store an input line into the current cell: the line is trimmed,
    /// parsed as a non-negative integer and truncated to eight bits.
    pub fn input_cell(&mut self, line: &str) -> (r: Result<(), Error>)
        ensures
            match r {
                Ok(()) => {
                    &&& line_parses(line@)
                    &&& old(self).curr_index < old(self).cells().len()
                    &&& final(self).cells() =~= old(self).cells().update(
                        old(self).curr_index as int,
                        line_value(line@),
                    )
                    &&& final(self).curr_index == old(self).curr_index
                    &&& old(self).wf() ==> final(self).wf()
                },
                Err(e) => {
                    &&& *final(self) == *old(self)
                    &&& if !line_parses(line@) {
                        e == Error::InputParseError
                    } else {
                        old(self).curr_index >= old(self).cells().len() && e
                            == Error::OutOfTapeIndex(old(self).curr_index)
                    }
                },
            },
    {
        let v = match parse_input_line(line) {
            Ok(v) => v,
            Err(e) => {
                return Err(e);
            },
        };
        if self.curr_index < self.cell_container.len() {
            let i = self.curr_index;
            let mut cell = self.cell_container[i];
            cell.put_cell(v);
            self.cell_container[i] = cell;
            assert(self.cells() =~= old(self).cells().update(i as int, line_value(line@)));
            Ok(())
        } else {
            Err(Error::OutOfTapeIndex(self.curr_index))
        }
    }
}

/// Whether `c` is whitespace for input-line trimming.
fn is_input_ws(c: char) -> (r: bool)
    ensures
        r == is_line_ws(c),
{
    c == ' ' || c == '\t' || c == '\n' || c == '\r'
}

/// Parse one input line: trim surrounding whitespace, read the rest as a
/// non-negative decimal integer, and truncate it to eight bits. Rejected
/// lines are exactly those [`line_parses`] rejects.
#[verifier::loop_isolation(false)]
pub fn parse_input_line(line: &str) -> (r: Result<u8, Error>)
    ensures
        match r {
            Ok(v) => line_parses(line@) && v == line_value(line@),
            Err(e) => !line_parses(line@) && e == Error::InputParseError,
        },
{
    let n = line.unicode_len();
    let mut a: usize = 0;
    assert(line@.skip(0) =~= line@);
    while a < n && is_input_ws(line.get_char(a))
        invariant
            a <= n,
            trim_front(line@.skip(a as int)) == trim_front(line@),
        decreases n - a,
    {
        assert(line@.skip(a as int).drop_first() =~= line@.skip(a as int + 1));
        a = a + 1;
    }
    assert(trim_front(line@) == line@.skip(a as int));
    let mut b: usize = n;
    while b > a && is_input_ws(line.get_char(b - 1))
        invariant
            a <= b <= n,
            trim_back(line@.subrange(a as int, b as int)) == spec_trim(line@),
        decreases b,
    {
        assert(line@.subrange(a as int, b as int).drop_last() =~= line@.subrange(
            a as int,
            b as int - 1,
        ));
        assert(line@.subrange(a as int, b as int).last() == line@[b as int - 1]);
        b = b - 1;
    }
    let ghost t = spec_trim(line@);
    proof {
        assert(line@.skip(a as int) =~= line@.subrange(a as int, n as int));
        assert(t == line@.subrange(a as int, b as int));
    }
    if b == a {
        // nothing but whitespace
        return Err(Error::InputParseError);
    }
    let mut j: usize = a;
    let mut acc: u64 = 0;
    let mut over: bool = false;
    while j < b
        invariant
            a <= j <= b,
            all_digits(line@.subrange(a as int, j as int)),
            over <==> digits_value(line@.subrange(a as int, j as int)) > u32::MAX as nat,
            !over ==> acc as nat == digits_value(line@.subrange(a as int, j as int)),
            acc <= u32::MAX,
        decreases b - j,
    {
        let c = line.get_char(j);
        let cu = c as u32;
        if cu < 48 || cu > 57 {
            proof {
                assert(!is_digit(t[j - a]));
                assert(!all_digits(t));
            }
            return Err(Error::InputParseError);
        }
        let d = (cu - 48) as u64;
        proof {
            assert(line@.subrange(a as int, j as int + 1).drop_last() =~= line@.subrange(
                a as int,
                j as int,
            ));
            assert(line@.subrange(a as int, j as int + 1).last() == line@[j as int]);
        }
        if !over {
            let nv = acc * 10 + d;
            if nv > u32::MAX as u64 {
                over = true;
                acc = 0;
            } else {
                acc = nv;
            }
        }
        j = j + 1;
    }
    if over {
        return Err(Error::InputParseError);
    }
    Ok((acc % 256) as u8)
}

} // verus!
