//! The structural parser: folds runs of one symbol into counted operations
//! and bracketed regions into loops.

use crate::lang::balance::{balanced, lemma_parsed_iff_balanced};
use crate::lang::folding::{folded, lemma_parse_inverts_writing, written};
use crate::lang::{counted, lemma_view_of_loop, ops_of, Op, Syntax, Token};
use vstd::prelude::*;

verus! {

/// What can be wrong with the brackets of a program.
pub ghost enum Flaw {
    /// A loop is opened and never closed.
    Mismatched,
    /// A loop is closed that was never opened.
    Orphaned,
}

impl Flaw {
    /// The text that reports the flaw.
    pub open spec fn message(self) -> Seq<char> {
        match self {
            Flaw::Mismatched => "Mismatched brackets in loop"@,
            Flaw::Orphaned => "Found orphaned ]"@,
        }
    }
}

/// What a symbol adds to the nesting depth.
pub open spec fn weight(t: Token) -> int {
    match t {
        Token::LEFT_BRACKET => 1,
        Token::RIGHT_BRACKET => -1,
        _ => 0,
    }
}

/// The nesting depth after `s`: brackets opened minus brackets closed.
pub open spec fn depth(s: Seq<Token>) -> int
    decreases s.len(),
{
    if s.len() == 0 {
        0
    } else {
        depth(s.drop_last()) + weight(s.last())
    }
}

/// The number of symbols at the head of `s` that equal its first symbol.
pub open spec fn run_len(s: Seq<Token>) -> nat
    decreases s.len(),
{
    if s.len() == 0 {
        0
    } else if s.len() >= 2 && s[1] == s[0] {
        1 + run_len(s.skip(1))
    } else {
        1
    }
}

/// The first index from `i` on at which the depth, `d` before `i`, returns
/// to zero.
pub open spec fn find_close(s: Seq<Token>, i: nat, d: int) -> Option<nat>
    decreases s.len() - i,
{
    if i >= s.len() {
        None
    } else if d + weight(s[i as int]) == 0 {
        Some(i)
    } else {
        find_close(s, i + 1, d + weight(s[i as int]))
    }
}

/// The index of the bracket that closes the one at the head of `s`.
pub open spec fn close_index(s: Seq<Token>) -> Option<nat> {
    find_close(s, 1, 1)
}

/// `done`, followed by what `rest` holds; the flaw of `rest` if it has one.
pub open spec fn prepend(done: Seq<Op>, rest: Result<Seq<Op>, Flaw>) -> Result<Seq<Op>, Flaw> {
    match rest {
        Ok(ops) => Ok(done + ops),
        Err(flaw) => Err(flaw),
    }
}

/// The program that a sequence of symbols stands for, or its first flaw.
///
/// A run of one symbol that is no bracket is one counted operation. An
/// opening bracket, the symbols up to the bracket that closes it, and that
/// bracket are one loop, whose body is what those symbols stand for.
pub open spec fn parsed(s: Seq<Token>) -> Result<Seq<Op>, Flaw>
    decreases s.len(),
{
    if s.len() == 0 {
        Ok(Seq::empty())
    } else if s[0] == Token::LEFT_BRACKET {
        match close_index(s) {
            None => Err(Flaw::Mismatched),
            Some(m) => {
                if 1 <= m < s.len() {
                    match parsed(s.subrange(1, m as int)) {
                        Err(flaw) => Err(flaw),
                        Ok(body) => prepend(seq![Op::Loop(body)], parsed(s.skip(m as int + 1))),
                    }
                } else {
                    Err(Flaw::Mismatched)
                }
            },
        }
    } else if s[0] == Token::RIGHT_BRACKET {
        Err(Flaw::Orphaned)
    } else {
        let k = run_len(s);
        if 1 <= k <= s.len() {
            prepend(seq![counted(s[0], k)], parsed(s.skip(k as int)))
        } else {
            Err(Flaw::Mismatched)
        }
    }
}

/// `find_close` answers with an index at or after its start and inside `s`.
pub proof fn lemma_find_close_bounds(s: Seq<Token>, i: nat, d: int)
    ensures
        find_close(s, i, d) matches Some(m) ==> i <= m < s.len(),
    decreases s.len() - i,
{
    if i < s.len() && d + weight(s[i as int]) != 0 {
        lemma_find_close_bounds(s, i + 1, d + weight(s[i as int]));
    }
}

/// A run that is `k` long, by every symbol in it and the one after it, has
/// the length `k`.
pub proof fn lemma_run_len_is(s: Seq<Token>, k: nat)
    requires
        1 <= k <= s.len(),
        forall|i: int| 0 <= i < k ==> #[trigger] s[i] == s[0],
        k == s.len() || s[k as int] != s[0],
    ensures
        run_len(s) == k,
    decreases k,
{
    if k > 1 {
        let t = s.skip(1);
        lemma_run_len_is(t, (k - 1) as nat);
    }
}

/// Prepending in two parts is prepending the whole.
proof fn lemma_prepend_twice(a: Seq<Op>, b: Seq<Op>, rest: Result<Seq<Op>, Flaw>)
    ensures
        prepend(a + b, rest) == prepend(a, prepend(b, rest)),
{
    if let Ok(ops) = rest {
        assert((a + b) + ops =~= a + (b + ops));
    }
}

/// A run of `k` equal symbols that are no brackets, with no further such
/// symbol after it, parses into one operation with the count `k`, and what
/// follows it parses by itself.
pub proof fn lemma_parsed_run(t: Token, k: nat, rest: Seq<Token>)
    requires
        !t.is_bracket(),
        k >= 1,
        rest.len() == 0 || rest[0] != t,
    ensures
        parsed(Seq::new(k, |i: int| t) + rest) == prepend(seq![counted(t, k)], parsed(rest)),
        parsed(Seq::new(k, |i: int| t)) == Ok::<Seq<Op>, Flaw>(seq![counted(t, k)]),
{
    let run = Seq::new(k, |i: int| t);
    let s = run + rest;
    lemma_run_len_is(s, k);
    assert(s.skip(k as int) =~= rest);
    lemma_run_len_is(run, k);
    assert(run.skip(k as int) =~= Seq::<Token>::empty());
}

/// The symbols of `tokens` from `lo` up to `hi`.
pub open spec fn span(tokens: Seq<Token>, lo: int, hi: int) -> Seq<Token> {
    tokens.subrange(lo, hi)
}

fn parse_range(tokens: &Vec<Token>, lo: usize, hi: usize) -> (r: Result<Vec<Syntax>, String>)
    requires
        lo <= hi <= tokens.len(),
    ensures
        match r {
            Ok(nodes) => parsed(span(tokens@, lo as int, hi as int)) == Ok::<Seq<Op>, Flaw>(
                ops_of(nodes@),
            ),
            Err(msg) => parsed(span(tokens@, lo as int, hi as int)) matches Err(flaw) && msg@
                == flaw.message(),
        },
    decreases hi - lo,
{
    let ghost whole = span(tokens@, lo as int, hi as int);
    let mut out: Vec<Syntax> = Vec::new();
    let mut i: usize = lo;
    while i < hi
        invariant
            lo <= i <= hi <= tokens.len(),
            whole == span(tokens@, lo as int, hi as int),
            parsed(whole) == prepend(ops_of(out@), parsed(span(tokens@, i as int, hi as int))),
        decreases hi - i,
    {
        let ghost rest = span(tokens@, i as int, hi as int);
        let ghost before = ops_of(out@);
        let token = tokens[i];
        if token.is_loop_beginning() {
            let mut j: usize = i + 1;
            let mut open: usize = 1;
            while j < hi
                invariant_except_break
                    open >= 1,
                    close_index(rest) == find_close(rest, (j - i) as nat, open as int),
                invariant
                    i < j <= hi <= tokens.len(),
                    open <= j - i,
                    rest == span(tokens@, i as int, hi as int),
                ensures
                    open == 0 ==> j < hi && close_index(rest) == Some((j - i) as nat),
                    open != 0 ==> close_index(rest).is_none(),
                decreases hi - j,
            {
                let t = tokens[j];
                if t == Token::LEFT_BRACKET {
                    open = open + 1;
                } else if t == Token::RIGHT_BRACKET {
                    open = open - 1;
                }
                if open == 0 {
                    break ;
                }
                j = j + 1;
            }
            if open != 0 {
                return Err("Mismatched brackets in loop".to_owned());
            }
            let ghost m = (j - i) as nat;
            assert(rest.subrange(1, m as int) =~= span(tokens@, i + 1, j as int));
            assert(rest.skip(m as int + 1) =~= span(tokens@, j + 1, hi as int));
            match parse_range(tokens, i + 1, j) {
                Err(msg) => {
                    return Err(msg);
                },
                Ok(inner) => {
                    proof {
                        lemma_view_of_loop(inner);
                    }
                    let ghost body = ops_of(inner@);
                    out.push(Syntax::Loop(inner));
                    assert(ops_of(out@) =~= before + seq![Op::Loop(body)]);
                    proof {
                        lemma_prepend_twice(
                            before,
                            seq![Op::Loop(body)],
                            parsed(span(tokens@, j + 1, hi as int)),
                        );
                    }
                    i = j + 1;
                },
            }
        } else if token == Token::RIGHT_BRACKET {
            return Err("Found orphaned ]".to_owned());
        } else {
            let mut amount: usize = 1;
            let mut j: usize = i + 1;
            while j < hi && tokens[j] == token
                invariant
                    i < j <= hi <= tokens.len(),
                    amount == j - i,
                    rest == span(tokens@, i as int, hi as int),
                    rest[0] == token,
                    forall|k: int| 0 <= k < j - i ==> #[trigger] rest[k] == token,
                decreases hi - j,
            {
                j = j + 1;
                amount = amount + 1;
            }
            proof {
                lemma_run_len_is(rest, amount as nat);
            }
            assert(rest.skip(amount as int) =~= span(tokens@, j as int, hi as int));
            let node = Syntax::from_token(token, amount);
            let ghost op = node@;
            out.push(node);
            assert(ops_of(out@) =~= before + seq![op]);
            proof {
                lemma_prepend_twice(before, seq![op], parsed(span(tokens@, j as int, hi as int)));
            }
            i = j;
        }
    }
    Ok(out)
}

/// Parses a sequence of symbols into a program.
///
/// Fails, with the message of the flaw, where a bracket has no partner.
pub fn parse(tokens: Vec<Token>) -> (r: Result<Vec<Syntax>, String>)
    ensures
        r is Ok <==> balanced(tokens@),
        match r {
            Ok(nodes) => parsed(tokens@) == Ok::<Seq<Op>, Flaw>(ops_of(nodes@)),
            Err(msg) => parsed(tokens@) matches Err(flaw) && msg@ == flaw.message(),
        },
        r matches Ok(nodes) ==> folded(ops_of(nodes@)) && written(ops_of(nodes@)) == tokens@,
{
    proof {
        lemma_parsed_iff_balanced(tokens@);
        if parsed(tokens@) is Ok {
            lemma_parse_inverts_writing(tokens@, parsed(tokens@)->Ok_0);
        }
    }
    assert(span(tokens@, 0, tokens.len() as int) =~= tokens@);
    parse_range(&tokens, 0, tokens.len())
}

} // verus!
