//! The executor: the tape, the pointer, and the machine that walks a program
//! over them one step at a time.

use crate::lang::render::{format_for_ttv, rendered};
use crate::lang::{lemma_view_of_loop, ops_of, Op, Syntax};
use vstd::prelude::*;
use vstd::string::StringExecFns;

verus! {

/// The value that native 32-bit signed arithmetic gives for the integer `x`:
/// the one value of `i32` that differs from `x` by a multiple of 2^32.
pub open spec fn wrap_i32(x: int) -> i32 {
    let m = x % 0x1_0000_0000;
    if m >= 0x8000_0000 {
        (m - 0x1_0000_0000) as i32
    } else {
        m as i32
    }
}

/// `n` cells that hold zero.
pub open spec fn zeros(n: nat) -> Seq<i32> {
    Seq::new(n, |i: int| 0i32)
}

/// Why a run cannot go on.
#[derive(Clone, Copy, PartialEq, Eq, Structural, Debug)]
pub enum Fault {
    /// The pointer was to move left of the first cell.
    PointerUnderflow,
    /// The pointer was to move right of the last cell that a tape can hold.
    PointerOverflow,
}

/// The direction of a pointer move.
#[derive(Clone, Copy, PartialEq, Eq, Structural, Debug)]
pub enum Shift {
    Left,
    Right,
}

/// The tape and the pointer into it.
#[derive(Debug)]
pub struct State {
    pub ptr: usize,
    pub tape: Vec<i32>,
}

/// The mathematical form of a [`State`].
pub ghost struct Cells {
    pub ptr: nat,
    pub tape: Seq<i32>,
}

impl Cells {
    /// The pointer is an index into the tape.
    pub open spec fn wf(self) -> bool {
        self.ptr < self.tape.len()
    }

    /// One cell that holds zero, and the pointer on it.
    pub open spec fn fresh() -> Cells {
        Cells { ptr: 0, tape: seq![0i32] }
    }

    /// The value of the cell under the pointer.
    pub open spec fn current(self) -> i32 {
        self.tape[self.ptr as int]
    }

    /// The same tape with `value` in the cell under the pointer.
    pub open spec fn with_current(self, value: i32) -> Cells {
        Cells { ptr: self.ptr, tape: self.tape.update(self.ptr as int, value) }
    }

    /// The cell under the pointer raised by `n`, wrapping.
    pub open spec fn incr(self, n: nat) -> Cells {
        self.with_current(wrap_i32(self.current() + n))
    }

    /// The cell under the pointer lowered by `n`, wrapping.
    pub open spec fn decr(self, n: nat) -> Cells {
        self.with_current(wrap_i32(self.current() - n))
    }

    /// The pointer `n` cells to the left.
    pub open spec fn left(self, n: nat) -> Cells
        recommends
            n <= self.ptr,
    {
        Cells { ptr: (self.ptr - n) as nat, tape: self.tape }
    }

    /// The pointer `n` cells to the right, and as many zero cells added at
    /// the end of the tape as it takes to hold the pointer.
    pub open spec fn right(self, n: nat) -> Cells {
        Cells {
            ptr: self.ptr + n,
            tape: if self.ptr + n < self.tape.len() {
                self.tape
            } else {
                self.tape + zeros((self.ptr + n + 1 - self.tape.len()) as nat)
            },
        }
    }

    /// The pointer moved by `n` cells, or the reason why it cannot move.
    pub open spec fn shift(self, shift: Shift, n: nat) -> Result<Cells, Fault> {
        match shift {
            Shift::Left => if n > self.ptr {
                Err(Fault::PointerUnderflow)
            } else {
                Ok(self.left(n))
            },
            Shift::Right => if self.ptr + n >= usize::MAX {
                Err(Fault::PointerOverflow)
            } else {
                Ok(self.right(n))
            },
        }
    }
}

impl View for State {
    type V = Cells;

    open spec fn view(&self) -> Cells {
        Cells { ptr: self.ptr as nat, tape: self.tape@ }
    }
}

/// The low 32 bits of `amount`, read as a signed number.
fn low_bits(amount: usize) -> (delta: i32)
    ensures
        delta == wrap_i32(amount as int),
{
    let low: u64 = (amount as u64) % 0x1_0000_0000u64;
    if low >= 0x8000_0000u64 {
        (low as i64 - 0x1_0000_0000i64) as i32
    } else {
        low as i32
    }
}

impl State {
    /// The pointer is an index into the tape.
    pub open spec fn wf(&self) -> bool {
        self@.wf()
    }

    /// A tape of one zero cell, and the pointer on it.
    pub fn new() -> (s: State)
        ensures
            s.wf(),
            s@ == Cells::fresh(),
    {
        let mut tape: Vec<i32> = Vec::new();
        tape.push(0);
        State { ptr: 0, tape }
    }

    /// Moves the pointer by `amount` cells. A move to the right lengthens
    /// the tape with zero cells as far as the pointer goes. A move that
    /// would leave the tape on the left, or pass the largest index a tape
    /// can have, is refused and changes nothing.
    pub fn shift(&mut self, shift: Shift, amount: usize) -> (r: Result<(), Fault>)
        requires
            old(self).wf(),
        ensures
            final(self).wf(),
            match old(self)@.shift(shift, amount as nat) {
                Ok(cells) => r is Ok && final(self)@ == cells,
                Err(fault) => r == Err::<(), Fault>(fault) && *final(self) == *old(self),
            },
    {
        match shift {
            Shift::Left => {
                if amount > self.ptr {
                    return Err(Fault::PointerUnderflow);
                }
                self.ptr = self.ptr - amount;
                Ok(())
            },
            Shift::Right => {
                if amount >= usize::MAX - self.ptr {
                    return Err(Fault::PointerOverflow);
                }
                self.ptr = self.ptr + amount;
                let ghost before = self.tape@;
                while self.tape.len() <= self.ptr
                    invariant
                        before.len() <= self.tape.len(),
                        self.tape.len() == before.len() || self.tape.len() <= self.ptr + 1,
                        self.tape@ == before + zeros((self.tape.len() - before.len()) as nat),
                        before == old(self).tape@,
                        self.ptr == old(self).ptr + amount,
                    decreases self.ptr + 1 - self.tape.len(),
                {
                    self.tape.push(0);
                }
                Ok(())
            },
        }
    }

    /// The value of the cell under the pointer.
    pub fn current_value(&self) -> (v: i32)
        requires
            self.wf(),
        ensures
            v == self@.current(),
    {
        self.tape[self.ptr]
    }

    /// Raises the cell under the pointer by `amount`, wrapping.
    pub fn incr(&mut self, amount: usize)
        requires
            old(self).wf(),
        ensures
            final(self).wf(),
            final(self)@ == old(self)@.incr(amount as nat),
    {
        let value = self.tape[self.ptr].wrapping_add(low_bits(amount));
        self.tape.set(self.ptr, value);
    }

    /// Lowers the cell under the pointer by `amount`, wrapping.
    pub fn decr(&mut self, amount: usize)
        requires
            old(self).wf(),
        ensures
            final(self).wf(),
            final(self)@ == old(self)@.decr(amount as nat),
    {
        let value = self.tape[self.ptr].wrapping_sub(low_bits(amount));
        self.tape.set(self.ptr, value);
    }

    /// Stores a byte that was read in the cell under the pointer.
    pub fn set_value(&mut self, buf_value: u8)
        requires
            old(self).wf(),
        ensures
            final(self).wf(),
            final(self)@ == old(self)@.with_current(buf_value as i32),
    {
        self.tape.set(self.ptr, buf_value as i32);
    }

    /// Whether the cell under the pointer holds zero.
    pub fn is_zero(&self) -> (z: bool)
        requires
            self.wf(),
        ensures
            z == (self@.current() == 0),
    {
        self.current_value() == 0
    }
}

/// How a run has ended.
#[derive(Clone, Copy, PartialEq, Eq, Structural, Debug)]
pub enum Halt {
    /// The program has run to its end.
    Finished,
    /// The interrupt byte was read.
    Interrupted,
    /// The pointer could not move as the program asked.
    Failed(Fault),
}

/// What the machine has done in a step, and what it asks of its driver.
#[derive(Clone, Copy, PartialEq, Eq, Structural, Debug)]
pub enum Action {
    /// Nothing to do: step again.
    Continue,
    /// Write `value` out once.
    Print { value: i32 },
    /// The program waits for input: offer a byte with the next step.
    Read,
    /// The byte that was offered is now in the cell under the pointer.
    Stored { byte: u8 },
    /// The run has ended, now or earlier.
    Halt(Halt),
}

/// The byte that ends a run when it is read.
pub const INTERRUPT: u8 = 3;

/// A sequence of operations in execution, and the index of the next one.
pub ghost struct Level {
    pub ops: Seq<Op>,
    pub next: nat,
}

/// The mathematical form of a [`Machine`]: the tape, the sequences of
/// operations that are in execution, the program first and the body of the
/// innermost running loop last, and how often the current write or read
/// has been done.
pub ghost struct Config {
    pub cells: Cells,
    pub levels: Seq<Level>,
    pub reps: nat,
    pub halt: Option<Halt>,
}

impl Config {
    /// The machine before the first step of `program`.
    pub open spec fn start(program: Seq<Op>) -> Config {
        Config {
            cells: Cells::fresh(),
            levels: seq![Level { ops: program, next: 0 }],
            reps: 0,
            halt: None,
        }
    }

    /// The pointer is on the tape; every level but the last stands at the
    /// loop whose body is the level after it.
    pub open spec fn wf(self) -> bool {
        &&& self.cells.wf()
        &&& self.levels.len() >= 1
        &&& forall|i: int|
            0 <= i < self.levels.len() ==> (#[trigger] self.levels[i]).next
                <= self.levels[i].ops.len()
        &&& forall|i: int|
            0 <= i < self.levels.len() - 1 ==> {
                &&& (#[trigger] self.levels[i]).next < self.levels[i].ops.len()
                &&& self.levels[i].ops[self.levels[i].next as int] == Op::Loop(
                    self.levels[i + 1].ops,
                )
            }
    }

    /// The innermost level.
    pub open spec fn top(self) -> Level {
        self.levels.last()
    }

    /// The machine with `cells` for its tape, at the operation after the
    /// current one.
    pub open spec fn advance(self, cells: Cells) -> Config {
        Config {
            cells,
            levels: self.levels.drop_last().push(
                Level { ops: self.top().ops, next: self.top().next + 1 },
            ),
            reps: 0,
            halt: self.halt,
        }
    }

    /// The machine at the start of `body`, one level further in.
    pub open spec fn enter(self, body: Seq<Op>) -> Config {
        Config {
            cells: self.cells,
            levels: self.levels.push(Level { ops: body, next: 0 }),
            reps: 0,
            halt: self.halt,
        }
    }

    /// The machine one level further out, back at the loop it was in.
    pub open spec fn leave(self) -> Config {
        Config { cells: self.cells, levels: self.levels.drop_last(), reps: 0, halt: self.halt }
    }

    /// The machine with one more repetition of the current operation done.
    pub open spec fn repeat(self, cells: Cells) -> Config {
        Config { cells, levels: self.levels, reps: self.reps + 1, halt: self.halt }
    }

    /// The machine halted, with nothing else changed.
    pub open spec fn halted(self, halt: Halt) -> Config {
        Config { cells: self.cells, levels: self.levels, reps: self.reps, halt: Some(halt) }
    }

    /// One step of the machine: the machine after it, and what it did.
    ///
    /// `input` is the byte on offer. It is taken only where the current
    /// operation is a read that is not yet done.
    pub open spec fn step(self, input: Option<u8>) -> (Config, Action) {
        if let Some(halt) = self.halt {
            (self, Action::Halt(halt))
        } else if self.top().next >= self.top().ops.len() {
            if self.levels.len() <= 1 {
                (self.halted(Halt::Finished), Action::Halt(Halt::Finished))
            } else {
                (self.leave(), Action::Continue)
            }
        } else {
            match self.top().ops[self.top().next as int] {
                Op::Incr(n) => (self.advance(self.cells.incr(n)), Action::Continue),
                Op::Decr(n) => (self.advance(self.cells.decr(n)), Action::Continue),
                Op::ShiftL(n) => match self.cells.shift(Shift::Left, n) {
                    Ok(cells) => (self.advance(cells), Action::Continue),
                    Err(fault) => (
                        self.halted(Halt::Failed(fault)),
                        Action::Halt(Halt::Failed(fault)),
                    ),
                },
                Op::ShiftR(n) => match self.cells.shift(Shift::Right, n) {
                    Ok(cells) => (self.advance(cells), Action::Continue),
                    Err(fault) => (
                        self.halted(Halt::Failed(fault)),
                        Action::Halt(Halt::Failed(fault)),
                    ),
                },
                Op::Write(n) => if self.reps >= n {
                    (self.advance(self.cells), Action::Continue)
                } else {
                    (self.repeat(self.cells), Action::Print { value: self.cells.current() })
                },
                Op::Read(n) => if self.reps >= n {
                    (self.advance(self.cells), Action::Continue)
                } else {
                    match input {
                        None => (self, Action::Read),
                        Some(byte) => if byte == INTERRUPT {
                            (self.halted(Halt::Interrupted), Action::Halt(Halt::Interrupted))
                        } else {
                            (
                                self.repeat(self.cells.with_current(byte as i32)),
                                Action::Stored { byte },
                            )
                        },
                    }
                },
                Op::Loop(body) => if self.cells.current() != 0 {
                    (self.enter(body), Action::Continue)
                } else {
                    (self.advance(self.cells), Action::Continue)
                },
            }
        }
    }
}

#[derive(Clone, Copy)]
struct Frame<'a> {
    nodes: &'a Vec<Syntax>,
    next: usize,
}

impl<'a> Frame<'a> {
    spec fn level(self) -> Level {
        Level { ops: ops_of(self.nodes@), next: self.next as nat }
    }
}

/// A program in execution.
///
/// The machine decides; its driver does what the machine cannot: it writes
/// out what a step asks to print, and reads the byte that a step waits for.
pub struct Machine<'a> {
    state: State,
    frames: Vec<Frame<'a>>,
    reps: usize,
    halt: Option<Halt>,
}

impl<'a> View for Machine<'a> {
    type V = Config;

    closed spec fn view(&self) -> Config {
        Config {
            cells: self.state@,
            levels: Seq::new(self.frames@.len(), |i: int| self.frames@[i].level()),
            reps: self.reps as nat,
            halt: self.halt,
        }
    }
}

impl<'a> Machine<'a> {
    /// The machine is in a state that steps lead to.
    pub open spec fn wf(&self) -> bool {
        self@.wf()
    }

    /// The machine before the first step of `program`, on a fresh tape.
    pub fn new(program: &'a Vec<Syntax>) -> (m: Machine<'a>)
        ensures
            m.wf(),
            m@ == Config::start(ops_of(program@)),
    {
        let mut frames: Vec<Frame<'a>> = Vec::new();
        frames.push(Frame { nodes: program, next: 0 });
        let m = Machine { state: State::new(), frames, reps: 0, halt: None };
        assert(m@.levels =~= seq![Level { ops: ops_of(program@), next: 0 }]);
        m
    }

    /// The tape and the pointer as they are now.
    pub fn state(&self) -> (s: &State)
        ensures
            s@ == self@.cells,
    {
        &self.state
    }

    /// The tape and the pointer, taken out of the machine.
    pub fn into_state(self) -> (s: State)
        ensures
            s@ == self@.cells,
    {
        self.state
    }

    /// How the run has ended, if it has.
    pub fn halted(&self) -> (h: Option<Halt>)
        ensures
            h == self@.halt,
    {
        self.halt
    }

    fn advance(&mut self)
        requires
            old(self).wf(),
            old(self)@.top().next < old(self)@.top().ops.len(),
        ensures
            final(self)@ == old(self)@.advance(old(self)@.cells),
            final(self).wf(),
    {
        let last = self.frames.len() - 1;
        let top = self.frames[last];
        assert(top.next < top.nodes.len());
        self.frames.set(last, Frame { nodes: top.nodes, next: top.next + 1 });
        self.reps = 0;
        assert(self@.levels =~= old(self)@.advance(old(self)@.cells).levels);
    }

    fn stop(&mut self, halt: Halt) -> (action: Action)
        requires
            old(self).wf(),
        ensures
            final(self)@ == old(self)@.halted(halt),
            final(self).wf(),
            action == Action::Halt(halt),
    {
        self.halt = Some(halt);
        Action::Halt(halt)
    }

    /// Takes one step.
    ///
    /// `input` is the byte on offer, if there is one. The machine takes it
    /// only where the program reads: the answer is then `Stored`, or the
    /// halt on the interrupt byte. Once halted, the machine stays as it is.
    pub fn step(&mut self, input: Option<u8>) -> (action: Action)
        requires
            old(self).wf(),
        ensures
            final(self).wf(),
            (final(self)@, action) == old(self)@.step(input),
    {
        if let Some(halt) = self.halt {
            return Action::Halt(halt);
        }
        let last = self.frames.len() - 1;
        let top = self.frames[last];
        let nodes: &'a Vec<Syntax> = top.nodes;
        if top.next >= nodes.len() {
            if last == 0 {
                return self.stop(Halt::Finished);
            }
            self.frames.pop();
            self.reps = 0;
            assert(self@.levels =~= old(self)@.leave().levels);
            return Action::Continue;
        }
        match &nodes[top.next] {
            Syntax::Incr(n) => {
                self.state.incr(*n);
                self.advance();
                Action::Continue
            },
            Syntax::Decr(n) => {
                self.state.decr(*n);
                self.advance();
                Action::Continue
            },
            Syntax::ShiftL(n) => {
                match self.state.shift(Shift::Left, *n) {
                    Ok(()) => {
                        self.advance();
                        Action::Continue
                    },
                    Err(fault) => {
                        self.stop(Halt::Failed(fault))
                    },
                }
            },
            Syntax::ShiftR(n) => {
                match self.state.shift(Shift::Right, *n) {
                    Ok(()) => {
                        self.advance();
                        Action::Continue
                    },
                    Err(fault) => {
                        self.stop(Halt::Failed(fault))
                    },
                }
            },
            Syntax::Write(n) => {
                if self.reps >= *n {
                    self.advance();
                    Action::Continue
                } else {
                    self.reps = self.reps + 1;
                    Action::Print { value: self.state.current_value() }
                }
            },
            Syntax::Read(n) => {
                if self.reps >= *n {
                    self.advance();
                    Action::Continue
                } else {
                    match input {
                        None => Action::Read,
                        Some(byte) => {
                            if byte == INTERRUPT {
                                self.stop(Halt::Interrupted)
                            } else {
                                self.state.set_value(byte);
                                self.reps = self.reps + 1;
                                Action::Stored { byte }
                            }
                        },
                    }
                }
            },
            Syntax::Loop(body) => {
                proof {
                    lemma_view_of_loop(*body);
                }
                if self.state.is_zero() {
                    self.advance();
                    Action::Continue
                } else {
                    self.frames.push(Frame { nodes: body, next: 0 });
                    self.reps = 0;
                    assert(self@.levels =~= old(self)@.enter(ops_of(body@)).levels);
                    Action::Continue
                }
            },
        }
    }
}

/// How a bounded run has ended.
#[derive(Clone, Copy, PartialEq, Eq, Structural, Debug)]
pub enum End {
    /// The machine has halted.
    Halted(Halt),
    /// The program waits for a byte and the input holds no more.
    InputExhausted,
    /// The steps that were allowed are used up.
    OutOfSteps,
}

/// The result of a bounded run: the tape and the pointer at its end, what
/// the write operations have written out, and how it ended.
#[derive(Debug)]
pub struct Run {
    pub state: State,
    pub output: String,
    pub end: End,
}

/// The mathematical form of a [`Run`].
pub ghost struct Outcome {
    pub cells: Cells,
    pub output: Seq<char>,
    pub end: End,
}

impl View for Run {
    type V = Outcome;

    open spec fn view(&self) -> Outcome {
        Outcome { cells: self.state@, output: self.output@, end: self.end }
    }
}

impl Outcome {
    /// The same outcome with `text` written out first.
    pub open spec fn after(self, text: Seq<char>) -> Outcome {
        Outcome { cells: self.cells, output: text + self.output, end: self.end }
    }
}

/// Where `steps` steps lead from `c`, with the bytes of `input` on offer one
/// after the other.
pub open spec fn run_from(c: Config, input: Seq<u8>, steps: nat) -> Outcome
    decreases steps,
{
    if steps == 0 {
        Outcome { cells: c.cells, output: Seq::empty(), end: End::OutOfSteps }
    } else {
        let offered = if input.len() > 0 {
            Some(input[0])
        } else {
            None
        };
        let (next, action) = c.step(offered);
        match action {
            Action::Continue => run_from(next, input, (steps - 1) as nat),
            Action::Print { value } => run_from(next, input, (steps - 1) as nat).after(
                rendered(value),
            ),
            Action::Stored { byte } => run_from(next, input.skip(1), (steps - 1) as nat),
            Action::Read => Outcome {
                cells: next.cells,
                output: Seq::empty(),
                end: End::InputExhausted,
            },
            Action::Halt(halt) => Outcome {
                cells: next.cells,
                output: Seq::empty(),
                end: End::Halted(halt),
            },
        }
    }
}

/// Where `steps` steps lead from the start of `program` on a fresh tape.
pub open spec fn ran(program: Seq<Op>, input: Seq<u8>, steps: nat) -> Outcome {
    run_from(Config::start(program), input, steps)
}

/// Appending to what was written before an outcome.
pub proof fn lemma_after_twice(outcome: Outcome, first: Seq<char>, second: Seq<char>)
    ensures
        outcome.after(second).after(first) == outcome.after(first + second),
        outcome.after(Seq::empty()) == outcome,
{
    assert(first + (second + outcome.output) =~= (first + second) + outcome.output);
}

/// Runs `program` on a fresh tape for at most `steps` steps of the machine,
/// with the bytes of `input` for what it reads.
///
/// The run ends when the machine halts, when the program waits for a byte
/// that `input` does not hold, or when the steps are used up.
pub fn run(program: Vec<Syntax>, input: Vec<u8>, steps: usize) -> (r: Run)
    ensures
        r.state.wf(),
        r@ == ran(ops_of(program@), input@, steps as nat),
{
    let mut machine = Machine::new(&program);
    let mut output = String::new();
    let mut used: usize = 0;
    let mut left: usize = steps;
    let mut end: Option<End> = None;
    let ghost goal = ran(ops_of(program@), input@, steps as nat);
    assert(input@.skip(0) =~= input@);
    while left > 0 && end.is_none()
        invariant
            machine.wf(),
            used <= input.len(),
            goal == (match end {
                None => run_from(machine@, input@.skip(used as int), left as nat),
                Some(e) => Outcome { cells: machine@.cells, output: Seq::empty(), end: e },
            }).after(output@),
        decreases left + (if end is None { 1nat } else { 0nat }),
    {
        let ghost rest = input@.skip(used as int);
        let ghost written = output@;
        let offered = if used < input.len() {
            Some(input[used])
        } else {
            None
        };
        let action = machine.step(offered);
        let ghost onward = run_from(machine@, rest, (left - 1) as nat);
        match action {
            Action::Continue => {},
            Action::Print { value } => {
                let text = format_for_ttv(value);
                output.append(text.as_str());
                proof {
                    lemma_after_twice(onward, written, rendered(value));
                }
            },
            Action::Stored { byte } => {
                assert(rest.skip(1) =~= input@.skip(used + 1));
                used = used + 1;
            },
            Action::Read => {
                end = Some(End::InputExhausted);
            },
            Action::Halt(halt) => {
                end = Some(End::Halted(halt));
            },
        }
        left = left - 1;
    }
    let end = match end {
        Some(e) => e,
        None => End::OutOfSteps,
    };
    Run { state: machine.into_state(), output, end }
}

} // verus!
