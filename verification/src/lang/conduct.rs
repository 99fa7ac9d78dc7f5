//! What holds of every run of the machine.

use crate::lang::interpreter::{
    lemma_after_twice, ran, run_from, Action, Cells, Config, End, Fault, Halt, Level, Outcome,
    INTERRUPT,
};
use crate::lang::render::rendered;
use crate::lang::parser::{lemma_parsed_run, parsed};
use crate::lang::{Op, Token};
use vstd::prelude::*;

verus! {

/// A step leads from a well-formed machine to a well-formed machine: the
/// pointer stays on the tape.
pub proof fn lemma_step_keeps_wf(c: Config, input: Option<u8>)
    requires
        c.wf(),
    ensures
        c.step(input).0.wf(),
{
}

/// A move to the right keeps every cell that was there, adds only zero
/// cells, and adds as many as it takes to hold the pointer.
pub proof fn lemma_right_keeps_cells(c: Cells, n: nat)
    requires
        c.wf(),
    ensures
        c.right(n).wf(),
        c.right(n).ptr == c.ptr + n,
        c.right(n).tape.len() == if c.ptr + n < c.tape.len() {
            c.tape.len()
        } else {
            c.ptr + n + 1
        },
        forall|i: int| 0 <= i < c.tape.len() ==> c.right(n).tape[i] == c.tape[i],
        forall|i: int| c.tape.len() <= i < c.right(n).tape.len() ==> c.right(n).tape[i] == 0,
{
}

/// No step shortens the tape, and only an increment, a decrement or a read
/// changes a cell that was there.
pub proof fn lemma_step_keeps_tape(c: Config, input: Option<u8>)
    requires
        c.wf(),
    ensures
        c.step(input).0.cells.tape.len() >= c.cells.tape.len(),
        forall|i: int|
            0 <= i < c.cells.tape.len() && i != c.cells.ptr ==> c.step(input).0.cells.tape[i]
                == c.cells.tape[i],
        c.step(input).0.cells.tape[c.cells.ptr as int] != c.cells.current() ==> {
            &&& c.halt is None
            &&& c.top().next < c.top().ops.len()
            &&& c.top().ops[c.top().next as int] is Incr || c.top().ops[c.top().next as int]
                is Decr || c.top().ops[c.top().next as int] is Read
        },
{
}

/// A halted machine stays as it is, whatever is offered.
pub proof fn lemma_halt_is_final(c: Config, input: Option<u8>)
    requires
        c.halt is Some,
    ensures
        c.step(input) == (c, Action::Halt(c.halt->0)),
{
}

/// A run from a halted machine ends at once, with the tape as it is and
/// nothing written.
pub proof fn lemma_run_of_halted(c: Config, input: Seq<u8>, steps: nat)
    requires
        c.halt is Some,
        steps >= 1,
    ensures
        run_from(c, input, steps) == (Outcome {
            cells: c.cells,
            output: Seq::empty(),
            end: End::Halted(c.halt->0),
        }),
{
}

/// A loop is tested before each pass over its body. On a zero cell the
/// machine moves on to the operation after the loop; on any other it enters
/// the body; and from the end of the body it comes back to the loop, to
/// test it again.
pub proof fn lemma_loop_is_tested_each_pass(c: Config, body: Seq<Op>, d: Config, input: Option<u8>)
    requires
        c.halt is None,
        c.levels.len() >= 1,
        c.top().next < c.top().ops.len(),
        c.top().ops[c.top().next as int] == Op::Loop(body),
        d.halt is None,
        d.levels == c.levels.push(Level { ops: body, next: body.len() }),
    ensures
        c.cells.current() == 0 ==> c.step(input) == (c.advance(c.cells), Action::Continue),
        c.cells.current() != 0 ==> c.step(input) == (c.enter(body), Action::Continue),
        c.enter(body).top() == (Level { ops: body, next: 0 }),
        d.step(input) == (
            Config { cells: d.cells, levels: c.levels, reps: 0, halt: None },
            Action::Continue,
        ),
{
    assert(d.levels.drop_last() =~= c.levels);
}

/// `n` times the text `text`.
pub open spec fn copies(text: Seq<char>, n: nat) -> Seq<char>
    decreases n,
{
    if n == 0 {
        Seq::empty()
    } else {
        text + copies(text, (n - 1) as nat)
    }
}

/// A write with the count `n` writes the cell under the pointer out `n`
/// times and changes nothing: from the first of its steps, the run goes on
/// after the last as from the next operation, with those `n` renderings
/// written first.
pub proof fn lemma_write_repeats(c: Config, n: nat, input: Seq<u8>, steps: nat)
    requires
        c.halt is None,
        c.top().next < c.top().ops.len(),
        c.top().ops[c.top().next as int] == Op::Write(n),
        c.reps <= n,
        steps > n - c.reps,
    ensures
        run_from(c, input, steps) == run_from(
            c.advance(c.cells),
            input,
            (steps - (n - c.reps) - 1) as nat,
        ).after(copies(rendered(c.cells.current()), (n - c.reps) as nat)),
    decreases n - c.reps,
{
    let text = rendered(c.cells.current());
    let onward = run_from(c.advance(c.cells), input, (steps - (n - c.reps) - 1) as nat);
    if c.reps < n {
        lemma_write_repeats(c.repeat(c.cells), n, input, (steps - 1) as nat);
        lemma_after_twice(onward, text, copies(text, (n - c.reps - 1) as nat));
    }
}

/// A read with the count `n` takes the next `n` bytes of the input, where
/// none of them is the interrupt byte, and leaves the last of them in the
/// cell under the pointer: from the first of its steps, the run goes on
/// after the last as from the next operation, with the rest of the input.
pub proof fn lemma_read_repeats(c: Config, n: nat, input: Seq<u8>, steps: nat)
    requires
        c.cells.wf(),
        c.halt is None,
        c.top().next < c.top().ops.len(),
        c.top().ops[c.top().next as int] == Op::Read(n),
        c.reps <= n,
        input.len() >= n - c.reps,
        forall|i: int| 0 <= i < n - c.reps ==> input[i] != INTERRUPT,
        steps > n - c.reps,
    ensures
        run_from(c, input, steps) == run_from(
            c.advance(
                if c.reps == n {
                    c.cells
                } else {
                    c.cells.with_current(input[n - c.reps - 1] as i32)
                },
            ),
            input.skip(n - c.reps),
            (steps - (n - c.reps) - 1) as nat,
        ),
    decreases n - c.reps,
{
    if c.reps == n {
        assert(input.skip(0) =~= input);
    } else {
        let stored = c.cells.with_current(input[0] as i32);
        let again = c.repeat(stored);
        let rest = input.skip(1);
        lemma_read_repeats(again, n, rest, (steps - 1) as nat);
        assert(rest.skip(n - again.reps) =~= input.skip(n - c.reps));
        if again.reps < n {
            let last = rest[n - again.reps - 1];
            assert(stored.with_current(last as i32).tape =~= c.cells.with_current(
                last as i32,
            ).tape);
            assert(again.advance(stored.with_current(last as i32)) == c.advance(
                c.cells.with_current(last as i32),
            ));
        }
    }
}

/// Where the program moves the pointer left of the first cell, the machine
/// halts on that step with the tape and the pointer unchanged, and no later
/// step does anything: every run from there ends in the failure, with
/// nothing more written.
pub proof fn lemma_underflow_ends_run(
    c: Config,
    n: nat,
    offered: Option<u8>,
    input: Seq<u8>,
    steps: nat,
)
    requires
        c.halt is None,
        c.top().next < c.top().ops.len(),
        c.top().ops[c.top().next as int] == Op::ShiftL(n),
        n > c.cells.ptr,
        steps >= 1,
    ensures
        c.step(offered) == (
            c.halted(Halt::Failed(Fault::PointerUnderflow)),
            Action::Halt(Halt::Failed(Fault::PointerUnderflow)),
        ),
        c.step(offered).0.step(offered) == c.step(offered),
        run_from(c, input, steps) == (Outcome {
            cells: c.cells,
            output: Seq::empty(),
            end: End::Halted(Halt::Failed(Fault::PointerUnderflow)),
        }),
{
}

/// `n` increments followed by `n` decrements parse, and their run ends
/// with the tape as fresh as it began: one zero cell, the pointer on it.
pub proof fn lemma_incr_then_decr(n: nat, input: Seq<u8>, steps: nat)
    requires
        steps >= 3,
    ensures
        parsed(Seq::new(n, |i: int| Token::PLUS) + Seq::new(n, |i: int| Token::MINUS))
            matches Ok(program) && ran(program, input, steps) == (Outcome {
            cells: Cells::fresh(),
            output: Seq::empty(),
            end: End::Halted(Halt::Finished),
        }),
{
    let minus = Seq::new(n, |i: int| Token::MINUS);
    let offered = if input.len() > 0 {
        Some(input[0])
    } else {
        None
    };
    if n > 0 {
        lemma_parsed_run(Token::MINUS, n, Seq::empty());
        lemma_parsed_run(Token::PLUS, n, minus);
        let program = seq![Op::Incr(n), Op::Decr(n)];
        assert(seq![Op::Incr(n)] + seq![Op::Decr(n)] =~= program);
        let c0 = Config::start(program);
        let c1 = c0.step(offered).0;
        let c2 = c1.step(offered).0;
        assert(c2.cells.tape =~= seq![0i32]);
        assert(run_from(c2, input, (steps - 2) as nat) == (Outcome {
            cells: Cells::fresh(),
            output: Seq::empty(),
            end: End::Halted(Halt::Finished),
        }));
        assert(run_from(c1, input, (steps - 1) as nat) == run_from(c2, input, (steps - 2) as nat));
    }
}

/// A run does not end while the machine stays among configurations from
/// which no step halts or waits for input: it uses up whatever steps it is
/// allowed.
pub proof fn lemma_closed_set_never_ends(
    inside: spec_fn(Config) -> bool,
    c: Config,
    input: Seq<u8>,
    steps: nat,
)
    requires
        inside(c),
        forall|d: Config, offered: Option<u8>|
            #![trigger d.step(offered)]
            inside(d) ==> {
                &&& inside(d.step(offered).0)
                &&& !(d.step(offered).1 is Halt)
                &&& !(d.step(offered).1 is Read)
            },
    ensures
        run_from(c, input, steps).end == End::OutOfSteps,
    decreases steps,
{
    if steps > 0 {
        let offered = if input.len() > 0 {
            Some(input[0])
        } else {
            None
        };
        let next = c.step(offered).0;
        lemma_closed_set_never_ends(inside, next, input, (steps - 1) as nat);
        lemma_closed_set_never_ends(inside, next, input.skip(1), (steps - 1) as nat);
    }
}

/// An operation that changes neither the tape nor the pointer and reads
/// nothing: a write, or a loop of such operations.
pub open spec fn idle_op(op: Op) -> bool
    decreases op,
{
    match op {
        Op::Write(_) => true,
        Op::Loop(body) => forall|i: int| 0 <= i < body.len() ==> idle_op(#[trigger] body[i]),
        _ => false,
    }
}

/// Every operation of `ops` is idle.
pub open spec fn idle(ops: Seq<Op>) -> bool {
    forall|i: int| 0 <= i < ops.len() ==> idle_op(#[trigger] ops[i])
}

/// The machine `c` is inside the loop at which `origin` stands, or at it,
/// and has done only idle operations since.
pub open spec fn circling(origin: Config, c: Config) -> bool {
    &&& c.halt is None
    &&& c.cells == origin.cells
    &&& c.levels.len() >= origin.levels.len()
    &&& c.levels[origin.levels.len() - 1] == origin.top()
    &&& forall|i: int|
        origin.levels.len() <= i < c.levels.len() ==> idle((#[trigger] c.levels[i]).ops)
}

/// The loop at which `origin` stands has an idle body and a cell under the
/// pointer that is not zero.
pub open spec fn stuck(origin: Config) -> bool {
    &&& origin.halt is None
    &&& origin.levels.len() >= 1
    &&& origin.top().next < origin.top().ops.len()
    &&& origin.top().ops[origin.top().next as int] matches Op::Loop(body) && idle(body)
    &&& origin.cells.current() != 0
}

proof fn lemma_circling_run(origin: Config, c: Config, input: Seq<u8>, steps: nat)
    requires
        stuck(origin),
        circling(origin, c),
    ensures
        run_from(c, input, steps).end == End::OutOfSteps,
        run_from(c, input, steps).cells == origin.cells,
    decreases steps,
{
    if steps > 0 {
        let offered = if input.len() > 0 {
            Some(input[0])
        } else {
            None
        };
        lemma_circling_run(origin, c.step(offered).0, input, (steps - 1) as nat);
    }
}

/// A loop that starts on a cell that is not zero, with a body that cannot
/// change the tape or the pointer, never ends: however many steps are
/// allowed, the run uses them all up and leaves the tape as it was.
pub proof fn lemma_idle_loop_never_ends(c: Config, input: Seq<u8>, steps: nat)
    requires
        stuck(c),
    ensures
        run_from(c, input, steps).end == End::OutOfSteps,
        run_from(c, input, steps).cells == c.cells,
{
    lemma_circling_run(c, c, input, steps);
}

} // verus!
