use vstd::prelude::*;

use crate::parser::{compiles_to, lemma_compile_increments, ops_wf, Error as CompileError, Op};
use crate::syntax::Token;

verus! {

/// What happens when a value leaves its range.
#[derive(Copy, Clone, Eq, PartialEq, Debug, Structural)]
pub enum Overflow {
    /// Overflows wrap around
    Wrap,
    /// Overflows saturate
    Saturate,
    /// Overflows cause an unrecoverable error
    Check,
}

/// What a read does once the input is used up.
#[derive(Copy, Clone, Eq, PartialEq, Debug, Structural)]
pub enum EofMode {
    /// Reads after EOF do nothing
    Noop,
    /// Reads after EOF set the cell to 0
    Set0,
    /// Reads after EOF terminate the program
    Terminate,
}

/// A run-time error.
#[derive(Copy, Clone, Eq, PartialEq, Debug, Structural)]
pub enum Error {
    /// Moving right past the largest index.
    RightDpOverflow { from: usize, amount: usize },
    /// Moving left past 0 when pointer overflows are checked.
    LeftDpOverflow { from: usize, amount: usize },
    /// A read after the end of input when reads there terminate.
    UnexpectedEof,
    /// Touching a cell at or past the memory limit.
    Oom { have: usize, want: usize },
    /// A checked addition out of range.
    AddOverflow { mem: u8, value: usize },
    /// A checked subtraction out of range.
    SubOverflow { mem: u8, value: usize },
    /// The run went on for `u64::MAX` instructions without halting.
    StepLimit,
}

/// The cell after adding `n` under `mode`.
pub open spec fn add_spec(mode: Overflow, cell: u8, n: usize) -> Result<u8, Error> {
    match mode {
        Overflow::Wrap => Ok(((cell + n) % 256) as u8),
        Overflow::Saturate => Ok(if cell + n > 255 { 255u8 } else { (cell + n) as u8 }),
        Overflow::Check => if cell + n > 255 {
            Err(Error::AddOverflow { mem: cell, value: n })
        } else {
            Ok((cell + n) as u8)
        },
    }
}

/// The cell after subtracting `n` under `mode`.
pub open spec fn sub_spec(mode: Overflow, cell: u8, n: usize) -> Result<u8, Error> {
    match mode {
        Overflow::Wrap => Ok(((cell - n) % 256) as u8),
        Overflow::Saturate => Ok(if n >= cell { 0u8 } else { (cell - n) as u8 }),
        Overflow::Check => if n > cell {
            Err(Error::SubOverflow { mem: cell, value: n })
        } else {
            Ok((cell - n) as u8)
        },
    }
}

/// The data pointer after moving `n` cells left under `mode`; a wrapped pointer
/// is taken modulo the memory limit `max`.
pub open spec fn left_spec(mode: Overflow, dp: usize, n: usize, max: usize) -> Result<usize, Error> {
    match mode {
        Overflow::Saturate => Ok(if n >= dp { 0usize } else { (dp - n) as usize }),
        Overflow::Wrap => Ok(if n <= dp { (dp - n) as usize } else { ((dp - n) % (max as int)) as usize }),
        Overflow::Check => if n > dp {
            Err(Error::LeftDpOverflow { from: dp, amount: n })
        } else {
            Ok((dp - n) as usize)
        },
    }
}

/// The data pointer after moving `n` cells right; only the index itself can overflow.
pub open spec fn right_spec(dp: usize, n: usize) -> Result<usize, Error> {
    if dp + n > usize::MAX {
        Err(Error::RightDpOverflow { from: dp, amount: n })
    } else {
        Ok((dp + n) as usize)
    }
}

/// Why a call of `eval` handed control back.
#[derive(Copy, Clone, Eq, PartialEq, Debug, Structural)]
pub enum Status {
    /// The program has run to its end.
    Halted,
    /// The next read waits for input that has not arrived.
    NeedInput,
    /// A write has produced output for the sink.
    Output,
}

/// The streams of a run: all the input it may read, and what it has written.
pub struct Io {
    pub input: Vec<u8>,
    pub output: Vec<u8>,
}

/// The overflow policies for cells and for the data pointer.
#[derive(Copy, Clone, Eq, PartialEq, Debug, Structural)]
pub struct OverflowOptions {
    pub cell: Overflow,
    pub ptr: Overflow,
}

impl Default for OverflowOptions {
    /// Cells wrap; the data pointer is checked.
    fn default() -> (r: Self)
        ensures
            r.cell == Overflow::Wrap,
            r.ptr == Overflow::Check,
    {
        Self { cell: Overflow::Wrap, ptr: Overflow::Check }
    }
}

/// Cells the memory starts with, and the least memory limit.
pub const INITIAL_MEM: usize = 32768;

/// The least size of an I/O chunk.
pub const MIN_IO: usize = 4;

/// The state of a run, as the instructions see it.
pub struct Machine {
    pub ops: Seq<Op>,
    pub input: Seq<u8>,
    pub cell_mode: Overflow,
    pub ptr_mode: Overflow,
    pub eof_mode: EofMode,
    pub max_mem: usize,
    pub ip: int,
    pub dp: usize,
    pub mem: Seq<u8>,
    pub in_pos: int,
    pub input_open: bool,
    pub output: Seq<u8>,
    pub reached_eof: bool,
}

/// A state a run can go on from: a well-formed program and positions in range.
pub open spec fn machine_wf(m: Machine) -> bool {
    &&& ops_wf(m.ops)
    &&& m.ops.len() <= usize::MAX
    &&& 0 <= m.ip <= m.ops.len()
    &&& 0 <= m.in_pos <= m.input.len()
    &&& m.max_mem > 0
}

/// The value of cell `dp`: 0 where the memory has not grown yet.
pub open spec fn cell_at(mem: Seq<u8>, dp: usize) -> u8 {
    if dp < mem.len() {
        mem[dp as int]
    } else {
        0
    }
}

/// The memory after growing it, with zeros, to hold the current cell.
pub open spec fn grown(m: Machine) -> Result<Seq<u8>, Error> {
    if m.dp >= m.max_mem {
        Err(Error::Oom { have: m.max_mem, want: m.dp })
    } else if m.dp < m.mem.len() {
        Ok(m.mem)
    } else {
        Ok(m.mem + Seq::new((m.dp + 1 - m.mem.len()) as nat, |i: int| 0u8))
    }
}

/// What a read gives once the input has run out; `v` is what `Noop` keeps.
pub open spec fn eof_value(mode: EofMode, v: u8) -> Result<u8, Error> {
    match mode {
        EofMode::Noop => Ok(v),
        EofMode::Set0 => Ok(0u8),
        EofMode::Terminate => Err(Error::UnexpectedEof),
    }
}

/// Where `n` reads in a row leave the input: its new position, and whether it
/// has run out. This holds whether or not the reads succeed.
pub open spec fn read_position(m: Machine, n: usize) -> (int, bool) {
    if m.reached_eof {
        (m.in_pos, true)
    } else if m.input.len() - m.in_pos >= n {
        (m.in_pos + n, false)
    } else {
        (m.input.len() as int, true)
    }
}

/// `n` reads in a row, with `cell` the current cell: the value left in the cell,
/// the new input position, and whether the input has run out.
pub open spec fn read_spec(m: Machine, cell: u8, n: usize) -> Result<(u8, int, bool), Error> {
    if m.reached_eof {
        match eof_value(m.eof_mode, cell) {
            Ok(v) => Ok((v, m.in_pos, true)),
            Err(e) => Err(e),
        }
    } else if m.input.len() - m.in_pos >= n {
        Ok((m.input[m.in_pos + n - 1], m.in_pos + n, false))
    } else {
        let last = if m.in_pos < m.input.len() {
            m.input.last()
        } else {
            cell
        };
        match eof_value(m.eof_mode, last) {
            Ok(v) => Ok((v, m.input.len() as int, true)),
            Err(e) => Err(e),
        }
    }
}

/// The machine after running the instruction at `m.ip`.
pub open spec fn step_spec(m: Machine) -> Result<Machine, Error> {
    let op = m.ops[m.ip];
    let n = op.n;
    let cell = cell_at(m.mem, m.dp);
    match op.t {
        Token::Right => match right_spec(m.dp, n) {
            Ok(d) => Ok(Machine { ip: m.ip + 1, dp: d, ..m }),
            Err(e) => Err(e),
        },
        Token::Left => match left_spec(m.ptr_mode, m.dp, n, m.max_mem) {
            Ok(d) => Ok(Machine { ip: m.ip + 1, dp: d, ..m }),
            Err(e) => Err(e),
        },
        Token::Add => match grown(m) {
            Ok(mem) => match add_spec(m.cell_mode, mem[m.dp as int], n) {
                Ok(v) => Ok(Machine { ip: m.ip + 1, mem: mem.update(m.dp as int, v), ..m }),
                Err(e) => Err(e),
            },
            Err(e) => Err(e),
        },
        Token::Sub => match grown(m) {
            Ok(mem) => match sub_spec(m.cell_mode, mem[m.dp as int], n) {
                Ok(v) => Ok(Machine { ip: m.ip + 1, mem: mem.update(m.dp as int, v), ..m }),
                Err(e) => Err(e),
            },
            Err(e) => Err(e),
        },
        Token::Read => match grown(m) {
            Ok(mem) => match read_spec(m, mem[m.dp as int], n) {
                Ok((v, p, eof)) => Ok(
                    Machine {
                        ip: m.ip + 1,
                        mem: mem.update(m.dp as int, v),
                        in_pos: p,
                        reached_eof: eof,
                        ..m
                    },
                ),
                Err(e) => Err(e),
            },
            Err(e) => Err(e),
        },
        Token::Write => Ok(
            Machine { ip: m.ip + 1, output: m.output + Seq::new(n as nat, |i: int| cell), ..m },
        ),
        Token::LBracket => Ok(
            Machine { ip: if cell == 0 { m.ip + n + 1 } else { m.ip + 1 }, ..m },
        ),
        Token::RBracket => Ok(
            Machine { ip: if cell != 0 { m.ip - n + 1 } else { m.ip + 1 }, ..m },
        ),
    }
}

/// The program has run to its end.
pub open spec fn halted(m: Machine) -> bool {
    m.ip >= m.ops.len()
}

/// The next instruction reads more bytes than have arrived, and more may come.
pub open spec fn blocked(m: Machine) -> bool {
    &&& !halted(m)
    &&& m.ops[m.ip].t == Token::Read
    &&& m.dp < m.max_mem
    &&& !m.reached_eof
    &&& m.input_open
    &&& m.input.len() - m.in_pos < m.ops[m.ip].n
}

/// The machine after `k` steps; a halted or blocked machine stays as it is, an
/// error ends the run.
pub open spec fn run(m: Machine, k: nat) -> Result<Machine, Error>
    decreases k,
{
    if k == 0 {
        Ok(m)
    } else {
        match run(m, (k - 1) as nat) {
            Ok(m1) => if halted(m1) || blocked(m1) {
                Ok(m1)
            } else {
                step_spec(m1)
            },
            Err(e) => Err(e),
        }
    }
}

/// Runs a compiled program against an input, under the configured policies.
pub struct Interpreter {
    ip: usize,
    dp: usize,
    mem: Vec<u8>,
    ops: Vec<Op>,
    input: Vec<u8>,
    in_pos: usize,
    input_open: bool,
    output: Vec<u8>,
    cell_overflow_mode: Overflow,
    ptr_overflow_mode: Overflow,
    eof_mode: EofMode,
    max_mem: usize,
    max_io: usize,
    reached_eof: bool,
}

impl View for Interpreter {
    type V = Machine;

    closed spec fn view(&self) -> Machine {
        Machine {
            ops: self.ops@,
            input: self.input@,
            cell_mode: self.cell_overflow_mode,
            ptr_mode: self.ptr_overflow_mode,
            eof_mode: self.eof_mode,
            max_mem: self.max_mem,
            ip: self.ip as int,
            dp: self.dp,
            mem: self.mem@,
            in_pos: self.in_pos as int,
            input_open: self.input_open,
            output: self.output@,
            reached_eof: self.reached_eof,
        }
    }
}

impl Interpreter {
    /// The interpreter is in a state that a run can go on from.
    pub closed spec fn wf(&self) -> bool {
        &&& machine_wf(self@)
        &&& self.max_mem >= INITIAL_MEM
        &&& self.max_io >= MIN_IO
    }

    /// The largest I/O chunk, as configured.
    pub closed spec fn max_io_spec(&self) -> usize {
        self.max_io
    }

    /// A fresh run of `ops`: pointers at 0, `INITIAL_MEM` zero cells, and the
    /// memory and I/O limits raised to their least values where given smaller.
    pub fn new(
        ops: Vec<Op>,
        io: Io,
        overflow: OverflowOptions,
        eof_mode: EofMode,
        max_mem: usize,
        max_io: usize,
    ) -> (r: Self)
        requires
            ops_wf(ops@),
        ensures
            r.wf(),
            r@.ops == ops@,
            r@.input == io.input@,
            r@.output == io.output@,
            r@.cell_mode == overflow.cell,
            r@.ptr_mode == overflow.ptr,
            r@.eof_mode == eof_mode,
            r@.max_mem == if max_mem < INITIAL_MEM { INITIAL_MEM } else { max_mem },
            r.max_io_spec() == if max_io < MIN_IO { MIN_IO } else { max_io },
            r@.ip == 0,
            r@.dp == 0,
            r@.mem == Seq::new(INITIAL_MEM as nat, |i: int| 0u8),
            r@.in_pos == 0,
            !r@.input_open,
            !r@.reached_eof,
    {
        let mut mem: Vec<u8> = Vec::new();
        let mut i: usize = 0;
        while i < INITIAL_MEM
            invariant
                i <= INITIAL_MEM,
                mem@ == Seq::new(i as nat, |j: int| 0u8),
            decreases INITIAL_MEM - i,
        {
            mem.push(0);
            i = i + 1;
            assert(mem@ =~= Seq::new(i as nat, |j: int| 0u8));
        }
        let ops_len = ops.len();
        Self {
            dp: 0,
            ip: 0,
            mem,
            ops,
            input: io.input,
            in_pos: 0,
            input_open: false,
            output: io.output,
            cell_overflow_mode: overflow.cell,
            ptr_overflow_mode: overflow.ptr,
            max_io: if max_io < MIN_IO { MIN_IO } else { max_io },
            max_mem: if max_mem < INITIAL_MEM { INITIAL_MEM } else { max_mem },
            eof_mode,
            reached_eof: false,
        }
    }

    /// The largest I/O chunk.
    pub fn max_io(&self) -> (r: usize)
        ensures
            r == self.max_io_spec(),
    {
        self.max_io
    }

    /// What the program has written so far.
    pub fn output(&self) -> (r: &Vec<u8>)
        ensures
            r@ == self@.output,
    {
        &self.output
    }

    /// The value of cell `i`.
    pub fn cell(&self, i: usize) -> (r: u8)
        ensures
            r == cell_at(self@.mem, i),
    {
        if i < self.mem.len() {
            self.mem[i]
        } else {
            0
        }
    }

    /// The data pointer.
    pub fn data_pointer(&self) -> (r: usize)
        ensures
            r == self@.dp,
    {
        self.dp
    }

    /// Whether the program has run to its end.
    pub fn is_halted(&self) -> (r: bool)
        ensures
            r == halted(self@),
    {
        self.ip >= self.ops.len()
    }

    /// The current cell, which the memory holds.
    fn value(&self) -> (r: u8)
        requires
            self.dp < self.mem@.len(),
        ensures
            r == self.mem@[self.dp as int],
    {
        self.mem[self.dp]
    }

    /// Grows the memory with zeros so that it holds the current cell.
    fn ensure_mem(&mut self) -> (r: Result<(), Error>)
        ensures
            r matches Err(e) ==> grown(old(self)@) == Err::<Seq<u8>, Error>(e),
            r is Err ==> final(self)@ == old(self)@ && final(self).mem == old(self).mem
                && final(self).max_io == old(self).max_io,
            r is Ok ==> grown(old(self)@) == Ok::<Seq<u8>, Error>(final(self)@.mem) && final(self)@
                == (Machine { mem: final(self)@.mem, ..old(self)@ }) && final(self).dp
                < final(self).mem@.len() && final(self).max_io == old(self).max_io,
    {
        if self.dp >= self.max_mem {
            return Err(Error::Oom { have: self.max_mem, want: self.dp });
        }
        let ghost start = self.mem@;
        if self.dp >= self.mem.len() {
            let need = self.dp + 1 - self.mem.len();
            let mut i: usize = 0;
            while i < need
                invariant
                    i <= need,
                    self.mem@ == start + Seq::new(i as nat, |j: int| 0u8),
                    self.dp == old(self).dp,
                    self.ip == old(self).ip,
                    self.ops == old(self).ops,
                    self.input == old(self).input,
                    self.output == old(self).output,
                    self.in_pos == old(self).in_pos,
                    self.input_open == old(self).input_open,
                    self.cell_overflow_mode == old(self).cell_overflow_mode,
                    self.ptr_overflow_mode == old(self).ptr_overflow_mode,
                    self.eof_mode == old(self).eof_mode,
                    self.max_mem == old(self).max_mem,
                    self.max_io == old(self).max_io,
                    self.reached_eof == old(self).reached_eof,
                decreases need - i,
            {
                self.mem.push(0);
                i = i + 1;
                assert(self.mem@ =~= start + Seq::new(i as nat, |j: int| 0u8));
            }
        }
        Ok(())
    }

    /// Carries out `times` reads in a row and gives the value the cell is left with.
    fn read(&mut self, times: usize) -> (r: Result<u8, Error>)
        requires
            old(self).dp < old(self).mem@.len(),
            times > 0,
            old(self).reached_eof || !old(self).input_open || old(self).input@.len()
                - old(self).in_pos >= times,
            0 <= old(self).in_pos <= old(self).input@.len(),
        ensures
            r matches Err(e) ==> read_spec(old(self)@, old(self).mem@[old(self).dp as int], times)
                == Err::<(u8, int, bool), Error>(e),
            r matches Ok(v) ==> read_spec(old(self)@, old(self).mem@[old(self).dp as int], times)
                == Ok::<(u8, int, bool), Error>((v, final(self)@.in_pos, final(self)@.reached_eof)),
            final(self)@ == (Machine {
                in_pos: read_position(old(self)@, times).0,
                reached_eof: read_position(old(self)@, times).1,
                ..old(self)@
            }),
            final(self).mem == old(self).mem,
            final(self).max_io == old(self).max_io,
    {
        let cell = self.value();
        if self.reached_eof {
            return Self::at_eof(self.eof_mode, cell);
        }
        let avail = self.input.len() - self.in_pos;
        if avail >= times {
            let v = self.input[self.in_pos + times - 1];
            self.in_pos = self.in_pos + times;
            Ok(v)
        } else {
            let last = if avail > 0 {
                self.input[self.input.len() - 1]
            } else {
                cell
            };
            self.in_pos = self.input.len();
            self.reached_eof = true;
            Self::at_eof(self.eof_mode, last)
        }
    }

    /// Adds `times` to a cell under `mode`.
    pub fn add(mode: Overflow, cell: u8, times: usize) -> (r: Result<u8, Error>)
        ensures
            r == add_spec(mode, cell, times),
    {
        match mode {
            Overflow::Wrap => {
                let t = (times % 256) as u8;
                assert(((cell + times) % 256) == ((cell + t) % 256)) by (nonlinear_arith)
                    requires t == times % 256;
                Ok(cell.wrapping_add(t))
            },
            Overflow::Saturate => {
                if times >= 255 || cell as usize + times > 255 {
                    Ok(255)
                } else {
                    Ok((cell as usize + times) as u8)
                }
            },
            Overflow::Check => {
                if times > 255 || cell as usize + times > 255 {
                    Err(Error::AddOverflow { mem: cell, value: times })
                } else {
                    Ok(cell + times as u8)
                }
            },
        }
    }

    /// Subtracts `times` from a cell under `mode`.
    pub fn sub(mode: Overflow, cell: u8, times: usize) -> (r: Result<u8, Error>)
        ensures
            r == sub_spec(mode, cell, times),
    {
        match mode {
            Overflow::Wrap => {
                let t = (times % 256) as u8;
                assert(((cell - times) % 256) == ((cell - t) % 256)) by (nonlinear_arith)
                    requires t == times % 256;
                Ok(cell.wrapping_sub(t))
            },
            Overflow::Check => {
                if times > cell as usize {
                    Err(Error::SubOverflow { mem: cell, value: times })
                } else {
                    Ok(cell - times as u8)
                }
            },
            Overflow::Saturate => {
                if times >= cell as usize {
                    Ok(0)
                } else {
                    Ok(cell - times as u8)
                }
            },
        }
    }

    /// Moves the data pointer `times` cells left under `mode`.
    pub fn left(mode: Overflow, dp: usize, times: usize, max_mem: usize) -> (r: Result<usize, Error>)
        requires
            max_mem > 0,
        ensures
            r == left_spec(mode, dp, times, max_mem),
    {
        match mode {
            Overflow::Saturate => Ok(dp.saturating_sub(times)),
            Overflow::Wrap => {
                if dp >= times {
                    Ok(dp - times)
                } else {
                    let m = (times - dp) % max_mem;
                    let r = if m == 0 { 0 } else { max_mem - m };
                    proof {
                        let k = times - dp;
                        let mm = max_mem as int;
                        let q = k / mm;
                        vstd::arithmetic::div_mod::lemma_fundamental_div_mod(k, mm);
                        if m == 0 {
                            assert(dp - times == (-q) * mm + 0) by (nonlinear_arith)
                                requires k == mm * q + 0, k == times - dp;
                            vstd::arithmetic::div_mod::lemma_fundamental_div_mod_converse(dp - times, mm, -q, 0);
                        } else {
                            assert(dp - times == (-q - 1) * mm + (mm - m)) by (nonlinear_arith)
                                requires k == mm * q + m, k == times - dp;
                            vstd::arithmetic::div_mod::lemma_fundamental_div_mod_converse(dp - times, mm, -q - 1, mm - m);
                        }
                    }
                    Ok(r)
                }
            },
            Overflow::Check => {
                if times > dp {
                    Err(Error::LeftDpOverflow { from: dp, amount: times })
                } else {
                    Ok(dp - times)
                }
            },
        }
    }

    /// Runs the instruction at the instruction pointer.
    fn step(&mut self) -> (r: Result<(), Error>)
        requires
            old(self).wf(),
            !halted(old(self)@),
            !blocked(old(self)@),
        ensures
            r matches Err(e) ==> step_spec(old(self)@) == Err::<Machine, Error>(e),
            r is Err ==> final(self).wf() && final(self)@.output == old(self)@.output,
            r is Ok ==> step_spec(old(self)@) == Ok::<Machine, Error>(final(self)@),
            r is Ok ==> final(self).wf(),
            r is Ok ==> final(self).max_io == old(self).max_io,
    {
        let op = self.ops[self.ip];
        assert(op == self.ops@[self.ip as int]);
        match op.t {
            Token::Add => {
                match self.ensure_mem() {
                    Err(e) => return Err(e),
                    Ok(()) => {},
                }
                let v = match Self::add(self.cell_overflow_mode, self.value(), op.n) {
                    Err(e) => return Err(e),
                    Ok(v) => v,
                };
                self.mem.set(self.dp, v);
            },
            Token::Sub => {
                match self.ensure_mem() {
                    Err(e) => return Err(e),
                    Ok(()) => {},
                }
                let v = match Self::sub(self.cell_overflow_mode, self.value(), op.n) {
                    Err(e) => return Err(e),
                    Ok(v) => v,
                };
                self.mem.set(self.dp, v);
            },
            Token::Left => {
                match Self::left(self.ptr_overflow_mode, self.dp, op.n, self.max_mem) {
                    Err(e) => return Err(e),
                    Ok(d) => {
                        self.dp = d;
                    },
                }
            },
            Token::Right => {
                match self.dp.checked_add(op.n) {
                    None => return Err(Error::RightDpOverflow { from: self.dp, amount: op.n }),
                    Some(d) => {
                        self.dp = d;
                    },
                }
            },
            Token::Read => {
                match self.ensure_mem() {
                    Err(e) => return Err(e),
                    Ok(()) => {},
                }
                let v = match self.read(op.n) {
                    Err(e) => return Err(e),
                    Ok(v) => v,
                };
                self.mem.set(self.dp, v);
            },
            Token::Write => {
                let val = if self.dp < self.mem.len() {
                    self.mem[self.dp]
                } else {
                    0
                };
                let ghost start = self.output@;
                let mut i: usize = 0;
                while i < op.n
                    invariant
                        i <= op.n,
                        self.output@ == start + Seq::new(i as nat, |j: int| val),
                        self.dp == old(self).dp,
                        self.ip == old(self).ip,
                        self.mem == old(self).mem,
                        self.ops == old(self).ops,
                        self.input == old(self).input,
                        self.in_pos == old(self).in_pos,
                    self.input_open == old(self).input_open,
                        self.cell_overflow_mode == old(self).cell_overflow_mode,
                        self.ptr_overflow_mode == old(self).ptr_overflow_mode,
                        self.eof_mode == old(self).eof_mode,
                        self.max_mem == old(self).max_mem,
                        self.max_io == old(self).max_io,
                        self.reached_eof == old(self).reached_eof,
                    decreases op.n - i,
                {
                    self.output.push(val);
                    i = i + 1;
                    assert(self.output@ =~= start + Seq::new(i as nat, |j: int| val));
                }
            },
            Token::LBracket => {
                if self.dp >= self.mem.len() || self.mem[self.dp] == 0 {
                    self.ip = self.ip + op.n;
                }
            },
            Token::RBracket => {
                if self.dp < self.mem.len() && self.mem[self.dp] != 0 {
                    self.ip = self.ip - op.n;
                }
            },
        }
        self.ip = self.ip + 1;
        Ok(())
    }

    /// Whether the next instruction waits for input that has not arrived.
    pub fn is_blocked(&self) -> (r: bool)
        requires
            self.wf(),
        ensures
            r == blocked(self@),
    {
        if self.ip >= self.ops.len() {
            return false;
        }
        let op = self.ops[self.ip];
        op.t == Token::Read && self.dp < self.max_mem && !self.reached_eof && self.input_open
            && self.input.len() - self.in_pos < op.n
    }

    /// Declares that more input may follow what the interpreter holds, so that a
    /// read that runs out of it waits instead of meeting the end of input.
    pub fn open_input(&mut self)
        requires
            old(self).wf(),
        ensures
            final(self).wf(),
            final(self)@ == (Machine { input_open: true, ..old(self)@ }),
    {
        self.input_open = true;
    }

    /// Appends bytes that have arrived to the input, and forgets the input
    /// that has already been read.
    pub fn feed(&mut self, bytes: &[u8])
        requires
            old(self).wf(),
        ensures
            final(self).wf(),
            final(self)@ == (Machine {
                input: old(self)@.input.subrange(old(self)@.in_pos, old(self)@.input.len() as int)
                    + bytes@,
                in_pos: 0,
                ..old(self)@
            }),
    {
        let mut fresh: Vec<u8> = Vec::new();
        let ghost rest = self.input@.subrange(self.in_pos as int, self.input@.len() as int);
        let mut i: usize = self.in_pos;
        while i < self.input.len()
            invariant
                self.wf(),
                self.in_pos <= i <= self.input@.len(),
                rest == self.input@.subrange(self.in_pos as int, self.input@.len() as int),
                fresh@ == self.input@.subrange(self.in_pos as int, i as int),
            decreases self.input@.len() - i,
        {
            fresh.push(self.input[i]);
            i = i + 1;
            assert(fresh@ =~= self.input@.subrange(self.in_pos as int, i as int));
        }
        let mut j: usize = 0;
        while j < bytes.len()
            invariant
                j <= bytes@.len(),
                fresh@ == rest + bytes@.subrange(0, j as int),
            decreases bytes@.len() - j,
        {
            fresh.push(bytes[j]);
            j = j + 1;
            assert(fresh@ =~= rest + bytes@.subrange(0, j as int));
        }
        assert(bytes@.subrange(0, bytes@.len() as int) =~= bytes@);
        self.input = fresh;
        self.in_pos = 0;
    }

    /// Declares that no more input will come: a read past what has arrived
    /// meets the end of input.
    pub fn close_input(&mut self)
        requires
            old(self).wf(),
        ensures
            final(self).wf(),
            final(self)@ == (Machine { input_open: false, ..old(self)@ }),
    {
        self.input_open = false;
    }

    /// Hands out what has been written since the last call, and forgets it.
    pub fn take_output(&mut self) -> (r: Vec<u8>)
        requires
            old(self).wf(),
        ensures
            final(self).wf(),
            r@ == old(self)@.output,
            final(self)@ == (Machine { output: Seq::empty(), ..old(self)@ }),
    {
        let mut out: Vec<u8> = Vec::new();
        std::mem::swap(&mut out, &mut self.output);
        out
    }

    /// Runs the program until it halts, waits for input, writes, or fails.
    ///
    /// Gives `Halted` once the program has run to its end, `NeedInput` when the
    /// next read waits for input that has not arrived, and `Output` right after a
    /// write, so that the caller can pass what was written on to the sink. A run
    /// that goes on for `u64::MAX` instructions in one call stops with `StepLimit`.
    pub fn eval(&mut self) -> (r: Result<Status, Error>)
        requires
            old(self).wf(),
        ensures
            r is Ok ==> final(self).wf(),
            r is Ok ==> exists|k: nat| run(old(self)@, k) == Ok::<Machine, Error>(final(self)@),
            r == Ok::<Status, Error>(Status::Halted) ==> halted(final(self)@),
            r == Ok::<Status, Error>(Status::NeedInput) ==> blocked(final(self)@),
            r == Ok::<Status, Error>(Status::Output) ==> final(self)@.output.len() > old(
                self,
            )@.output.len(),
            r == Err::<Status, Error>(Error::StepLimit) ==> final(self).wf() && run(
                old(self)@,
                u64::MAX as nat,
            ) == Ok::<Machine, Error>(final(self)@) && !halted(final(self)@) && !blocked(
                final(self)@,
            ),
            r matches Err(e) ==> e != Error::StepLimit ==> final(self).wf() && exists|k: nat|
                #[trigger] run(old(self)@, k) matches Ok(m) && !halted(m) && !blocked(m)
                    && step_spec(m) == Err::<Machine, Error>(e) && final(self)@.output == m.output,
    {
        let mut steps: u64 = 0;
        loop
            invariant
                self.wf(),
                run(old(self)@, steps as nat) == Ok::<Machine, Error>(self@),
                self@.output.len() >= old(self)@.output.len(),
            decreases u64::MAX - steps,
        {
            if self.ip >= self.ops.len() {
                return Ok(Status::Halted);
            }
            if self.is_blocked() {
                return Ok(Status::NeedInput);
            }
            if steps == u64::MAX {
                return Err(Error::StepLimit);
            }
            let writes = self.ops[self.ip].t == Token::Write;
            let ghost before = self@;
            match self.step() {
                Err(e) => {
                    assert(run(old(self)@, steps as nat) matches Ok(m) && !halted(m) && !blocked(m)
                        && step_spec(m) == Err::<Machine, Error>(e) && self@.output == m.output);
                    return Err(e);
                },
                Ok(()) => {},
            }
            proof {
                lemma_step_output(before);
            }
            steps = steps + 1;
            if writes {
                return Ok(Status::Output);
            }
        }
    }

    fn at_eof(mode: EofMode, v: u8) -> (r: Result<u8, Error>)
        ensures
            r == eof_value(mode, v),
    {
        match mode {
            EofMode::Noop => Ok(v),
            EofMode::Set0 => Ok(0),
            EofMode::Terminate => Err(Error::UnexpectedEof),
        }
    }
}


proof fn lemma_step_output(m: Machine)
    requires
        machine_wf(m),
        !halted(m),
        step_spec(m) is Ok,
    ensures
        step_spec(m)->Ok_0.output.len() >= m.output.len(),
        m.ops[m.ip].t == Token::Write ==> step_spec(m)->Ok_0.output.len() > m.output.len(),
{
    assert(m.ops[m.ip].n > 0);
}

/// After the end of input has been met, every run of reads keeps the cell under
/// `Noop`, sets it to 0 under `Set0`, and fails under `Terminate`, and leaves the
/// input where it was with the end still met.
pub proof fn lemma_reads_after_eof(m: Machine, cell: u8, n: usize)
    requires
        m.reached_eof,
    ensures
        read_position(m, n) == (m.in_pos, true),
        m.eof_mode == EofMode::Noop ==> read_spec(m, cell, n) == Ok::<(u8, int, bool), Error>(
            (cell, m.in_pos, true),
        ),
        m.eof_mode == EofMode::Set0 ==> read_spec(m, cell, n) == Ok::<(u8, int, bool), Error>(
            (0u8, m.in_pos, true),
        ),
        m.eof_mode == EofMode::Terminate ==> read_spec(m, cell, n) == Err::<(u8, int, bool), Error>(
            Error::UnexpectedEof,
        ),
{
}

/// Once the input has ended and is used up, a read keeps the cell under `Noop`, sets it to 0
/// under `Set0`, and fails the run under `Terminate`; the input stays used up,
/// so the same holds of every later read.
pub proof fn lemma_read_at_eof(m: Machine)
    requires
        machine_wf(m),
        !halted(m),
        m.ops[m.ip].t == Token::Read,
        m.in_pos == m.input.len(),
        !m.input_open,
        m.dp < m.max_mem,
    ensures
        m.eof_mode == EofMode::Noop ==> (step_spec(m) matches Ok(m2) && cell_at(m2.mem, m.dp)
            == cell_at(m.mem, m.dp) && m2.in_pos == m2.input.len() && m2.reached_eof),
        m.eof_mode == EofMode::Set0 ==> (step_spec(m) matches Ok(m2) && cell_at(m2.mem, m.dp) == 0
            && m2.in_pos == m2.input.len() && m2.reached_eof),
        m.eof_mode == EofMode::Terminate ==> step_spec(m) == Err::<Machine, Error>(
            Error::UnexpectedEof,
        ),
{
    assert(m.ops[m.ip].n > 0);
    let mem = grown(m)->Ok_0;
    assert(mem[m.dp as int] == cell_at(m.mem, m.dp));
}

/// `n` increments in a row from a zero cell, compiled and run, leave `n mod 256`
/// when cells wrap and `min(255, n)` when they saturate; when cells are checked
/// the run fails with `AddOverflow` exactly when `n > 255`, and leaves `n` otherwise.
pub proof fn lemma_increments(code: Seq<u8>, m: Machine)
    requires
        1 <= code.len() <= usize::MAX,
        forall|j: int| 0 <= j < code.len() ==> #[trigger] code[j] == 43u8,
        compiles_to(code, Ok::<Seq<Op>, CompileError>(m.ops)),
        machine_wf(m),
        m.ip == 0,
        cell_at(m.mem, m.dp) == 0,
        m.dp < m.max_mem,
    ensures
        m.cell_mode == Overflow::Wrap ==> (run(m, 1) matches Ok(m2) && halted(m2)
            && cell_at(m2.mem, m.dp) == code.len() % 256),
        m.cell_mode == Overflow::Saturate ==> (run(m, 1) matches Ok(m2) && halted(m2)
            && cell_at(m2.mem, m.dp) == if code.len() > 255 { 255 } else { code.len() }),
        m.cell_mode == Overflow::Check && code.len() > 255 ==> run(m, 1) == Err::<Machine, Error>(
            Error::AddOverflow { mem: 0, value: code.len() as usize },
        ),
        m.cell_mode == Overflow::Check && code.len() <= 255 ==> (run(m, 1) matches Ok(m2)
            && halted(m2) && cell_at(m2.mem, m.dp) == code.len()),
{
    lemma_compile_increments(code, Ok::<Seq<Op>, CompileError>(m.ops));
    assert(m.ops[0] == Op { t: Token::Add, n: code.len() as usize });
    assert(run(m, 0) == Ok::<Machine, Error>(m));
    let mem = grown(m)->Ok_0;
    assert(mem[m.dp as int] == cell_at(m.mem, m.dp));
}

} // verus!
