//! Parsing and writing out are inverse to each other: a program parses from
//! the symbols it is written as, and from no others.

use crate::lang::balance::{
    balanced, lemma_depth_concat, lemma_depth_step, lemma_find_close_depth,
    lemma_parsed_iff_balanced, lemma_run_len_holds,
};
use crate::lang::parser::{
    close_index, depth, lemma_parsed_run, parsed, run_len, Flaw,
};
use crate::lang::{counted, Op, Token};
use vstd::prelude::*;

verus! {

/// `n` times the symbol `t`.
pub open spec fn repeated(t: Token, n: nat) -> Seq<Token> {
    Seq::new(n, |i: int| t)
}

/// The symbols that an operation is written as.
pub open spec fn written_op(op: Op) -> Seq<Token>
    decreases op,
{
    match op {
        Op::Incr(n) => repeated(Token::PLUS, n),
        Op::Decr(n) => repeated(Token::MINUS, n),
        Op::ShiftL(n) => repeated(Token::SMALLER, n),
        Op::ShiftR(n) => repeated(Token::GREATER, n),
        Op::Write(n) => repeated(Token::DOT, n),
        Op::Read(n) => repeated(Token::COMMA, n),
        Op::Loop(body) => seq![Token::LEFT_BRACKET] + written(body) + seq![Token::RIGHT_BRACKET],
    }
}

/// The symbols that a program is written as.
pub open spec fn written(ops: Seq<Op>) -> Seq<Token>
    decreases ops,
{
    if ops.len() == 0 {
        Seq::empty()
    } else {
        written_op(ops[0]) + written(ops.drop_first())
    }
}

/// The symbol that a counted operation repeats; nothing for a loop.
pub open spec fn symbol(op: Op) -> Option<Token> {
    match op {
        Op::Incr(_) => Some(Token::PLUS),
        Op::Decr(_) => Some(Token::MINUS),
        Op::ShiftL(_) => Some(Token::SMALLER),
        Op::ShiftR(_) => Some(Token::GREATER),
        Op::Write(_) => Some(Token::DOT),
        Op::Read(_) => Some(Token::COMMA),
        Op::Loop(_) => None,
    }
}

/// The count of a counted operation; nothing for a loop.
pub open spec fn count(op: Op) -> Option<nat> {
    match op {
        Op::Incr(n) | Op::Decr(n) | Op::ShiftL(n) => Some(n),
        Op::ShiftR(n) | Op::Write(n) | Op::Read(n) => Some(n),
        Op::Loop(_) => None,
    }
}

/// No two operations in a row repeat the same symbol.
pub open spec fn no_split_runs(ops: Seq<Op>) -> bool {
    forall|i: int|
        0 <= i < ops.len() - 1 && symbol(#[trigger] ops[i]) is Some ==> symbol(ops[i]) != symbol(
            ops[i + 1],
        )
}

/// The operation is as folded as can be: a count is at least one, and in a
/// loop body no run of one symbol is split over two operations, at any
/// depth.
pub open spec fn folded_op(op: Op) -> bool
    decreases op,
{
    match op {
        Op::Loop(body) => {
            &&& forall|i: int| 0 <= i < body.len() ==> folded_op(#[trigger] body[i])
            &&& no_split_runs(body)
        },
        _ => count(op)->0 >= 1,
    }
}

/// The program is as folded as can be, at every depth.
pub open spec fn folded(ops: Seq<Op>) -> bool {
    &&& forall|i: int| 0 <= i < ops.len() ==> folded_op(#[trigger] ops[i])
    &&& no_split_runs(ops)
}

/// A program is written as its first operation and then the rest.
pub proof fn lemma_written_head(op: Op, rest: Seq<Op>)
    ensures
        written(seq![op] + rest) == written_op(op) + written(rest),
{
    let ops = seq![op] + rest;
    assert(ops.drop_first() =~= rest);
}

/// A program that parses from symbols is written as those symbols.
pub proof fn lemma_written_of_parsed(s: Seq<Token>)
    requires
        parsed(s) is Ok,
    ensures
        written(parsed(s)->Ok_0) == s,
    decreases s.len(),
{
    if s.len() > 0 {
        if s[0] == Token::LEFT_BRACKET {
            let m = close_index(s)->0;
            lemma_depth_step(s, 0);
            lemma_find_close_depth(s, 1, 1);
            let inner = s.subrange(1, m as int);
            let after = s.skip(m as int + 1);
            lemma_written_of_parsed(inner);
            lemma_written_of_parsed(after);
            lemma_written_head(Op::Loop(parsed(inner)->Ok_0), parsed(after)->Ok_0);
        } else {
            let k = run_len(s);
            lemma_run_len_holds(s);
            let after = s.skip(k as int);
            lemma_written_of_parsed(after);
            lemma_written_head(counted(s[0], k), parsed(after)->Ok_0);
        }
    }
}

/// A program that parses from symbols is as folded as can be: every count
/// is the length of a whole run.
pub proof fn lemma_parsed_is_folded(s: Seq<Token>)
    requires
        parsed(s) is Ok,
    ensures
        folded(parsed(s)->Ok_0),
    decreases s.len(),
{
    if s.len() > 0 {
        if s[0] == Token::LEFT_BRACKET {
            let m = close_index(s)->0;
            lemma_parsed_is_folded(s.subrange(1, m as int));
            lemma_parsed_is_folded(s.skip(m as int + 1));
        } else {
            lemma_run_len_holds(s);
            lemma_parsed_is_folded(s.skip(run_len(s) as int));
        }
    }
}

/// In a balanced sequence between a pair of brackets, the closing one is
/// the partner of the opening one, whatever follows.
proof fn lemma_close_of_wrapped(inner: Seq<Token>, after: Seq<Token>)
    requires
        balanced(inner),
    ensures
        close_index(
            seq![Token::LEFT_BRACKET] + inner + seq![Token::RIGHT_BRACKET] + after,
        ) == Some((inner.len() + 1) as nat),
{
    let open = seq![Token::LEFT_BRACKET];
    let s = open + inner + seq![Token::RIGHT_BRACKET] + after;
    let end: int = inner.len() as int + 1;
    lemma_depth_step(s, 0);
    assert(s.take(1) =~= open);
    assert forall|j: int| 1 <= j <= end implies depth(#[trigger] s.take(j)) >= 1 by {
        assert(s.take(j) =~= open + inner.take(j - 1));
        lemma_depth_concat(open, inner.take(j - 1));
    }
    assert(inner.take(inner.len() as int) =~= inner);
    assert(s.take(end) =~= open + inner.take(inner.len() as int));
    lemma_depth_concat(open, inner);
    lemma_depth_step(s, end);
    lemma_find_close_depth(s, 1, 1);
}

proof fn lemma_parsed_of_written_loop(body: Seq<Op>, rest: Seq<Op>)
    requires
        parsed(written(body)) == Ok::<Seq<Op>, Flaw>(body),
        parsed(written(rest)) == Ok::<Seq<Op>, Flaw>(rest),
    ensures
        parsed(written(seq![Op::Loop(body)] + rest)) == Ok::<Seq<Op>, Flaw>(
            seq![Op::Loop(body)] + rest,
        ),
{
    let inner = written(body);
    let after = written(rest);
    lemma_written_head(Op::Loop(body), rest);
    let s = seq![Token::LEFT_BRACKET] + inner + seq![Token::RIGHT_BRACKET] + after;
    lemma_parsed_iff_balanced(inner);
    lemma_close_of_wrapped(inner, after);
    let m: int = inner.len() as int + 1;
    assert(s.subrange(1, m) =~= inner);
    assert(s.skip(m + 1) =~= after);
}

proof fn lemma_parsed_of_written_run(t: Token, k: nat, rest: Seq<Op>)
    requires
        !t.is_bracket(),
        k >= 1,
        folded(rest),
        rest.len() > 0 ==> symbol(rest[0]) != Some(t),
        parsed(written(rest)) == Ok::<Seq<Op>, Flaw>(rest),
    ensures
        parsed(written(seq![counted(t, k)] + rest)) == Ok::<Seq<Op>, Flaw>(
            seq![counted(t, k)] + rest,
        ),
{
    lemma_written_head(counted(t, k), rest);
    lemma_parsed_run(t, k, written(rest));
}

/// A folded program parses from the symbols it is written as.
pub proof fn lemma_parsed_of_written(ops: Seq<Op>)
    requires
        folded(ops),
    ensures
        parsed(written(ops)) == Ok::<Seq<Op>, Flaw>(ops),
    decreases ops,
{
    if ops.len() > 0 {
        let op = ops[0];
        let rest = ops.drop_first();
        lemma_parsed_of_written(rest);
        assert(seq![op] + rest =~= ops);
        match op {
            Op::Loop(body) => {
                lemma_parsed_of_written(body);
                lemma_parsed_of_written_loop(body, rest);
            },
            _ => {
                lemma_parsed_of_written_run(symbol(op)->0, count(op)->0, rest);
            },
        }
    } else {
        assert(ops =~= Seq::<Op>::empty());
    }
}

/// Parsing is one to one: a folded program is the only one that parses
/// from the symbols it is written as, and symbols parse into a program
/// exactly when some folded program is written as them.
pub proof fn lemma_parse_inverts_writing(s: Seq<Token>, ops: Seq<Op>)
    ensures
        parsed(s) == Ok::<Seq<Op>, Flaw>(ops) <==> folded(ops) && written(ops) == s,
{
    if parsed(s) == Ok::<Seq<Op>, Flaw>(ops) {
        lemma_written_of_parsed(s);
        lemma_parsed_is_folded(s);
    }
    if folded(ops) && written(ops) == s {
        lemma_parsed_of_written(ops);
    }
}

} // verus!
