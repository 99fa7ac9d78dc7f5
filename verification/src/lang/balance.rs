//! When a sequence of symbols parses: exactly when its brackets balance.

use crate::lang::parser::{
    close_index, depth, find_close, lemma_find_close_bounds, parsed, run_len, weight, Flaw,
};
use crate::lang::{Op, Token};
use vstd::prelude::*;

verus! {

/// No prefix of `s` closes more loops than it has opened.
pub open spec fn never_negative(s: Seq<Token>) -> bool {
    forall|n: int| 0 <= n <= s.len() ==> depth(#[trigger] s.take(n)) >= 0
}

/// Every bracket of `s` has its partner.
pub open spec fn balanced(s: Seq<Token>) -> bool {
    never_negative(s) && depth(s) == 0
}

/// The depth after two sequences in a row is the sum of their depths.
pub proof fn lemma_depth_concat(a: Seq<Token>, b: Seq<Token>)
    ensures
        depth(a + b) == depth(a) + depth(b),
    decreases b.len(),
{
    if b.len() > 0 {
        assert((a + b).drop_last() =~= a + b.drop_last());
        lemma_depth_concat(a, b.drop_last());
    }
}

/// One more symbol changes the depth by its weight.
pub proof fn lemma_depth_step(s: Seq<Token>, i: int)
    requires
        0 <= i < s.len(),
    ensures
        depth(s.take(i + 1)) == depth(s.take(i)) + weight(s[i]),
{
    assert(s.take(i + 1).drop_last() =~= s.take(i));
}

/// The run at the head of `s` is made of its first symbol and ends where
/// another symbol follows.
pub proof fn lemma_run_len_holds(s: Seq<Token>)
    requires
        s.len() > 0,
    ensures
        1 <= run_len(s) <= s.len(),
        forall|i: int| 0 <= i < run_len(s) ==> #[trigger] s[i] == s[0],
        run_len(s) == s.len() || s[run_len(s) as int] != s[0],
    decreases s.len(),
{
    if s.len() >= 2 && s[1] == s[0] {
        let t = s.skip(1);
        lemma_run_len_holds(t);
        assert forall|i: int| 0 <= i < run_len(s) implies #[trigger] s[i] == s[0] by {
            if i > 0 {
                assert(t[i - 1] == s[i]);
            }
        }
    }
}

/// A run of symbols that are no brackets leaves the depth at zero.
proof fn lemma_depth_of_plain_prefix(s: Seq<Token>, n: int)
    requires
        0 <= n <= s.len(),
        forall|i: int| 0 <= i < n ==> weight(#[trigger] s[i]) == 0,
    ensures
        depth(s.take(n)) == 0,
    decreases n,
{
    if n > 0 {
        lemma_depth_of_plain_prefix(s, n - 1);
        lemma_depth_step(s, n - 1);
    }
}

/// What `find_close` finds, in terms of depths: the first prefix, from `i`
/// on, after which the depth is zero; nothing, where every such prefix
/// leaves a loop open.
pub proof fn lemma_find_close_depth(s: Seq<Token>, i: nat, d: int)
    requires
        i <= s.len(),
        d == depth(s.take(i as int)),
        d >= 1,
    ensures
        match find_close(s, i, d) {
            Some(m) => {
                &&& i <= m < s.len()
                &&& s[m as int] == Token::RIGHT_BRACKET
                &&& depth(s.take(m as int)) == 1
                &&& depth(s.take(m as int + 1)) == 0
                &&& forall|j: int| i <= j <= m ==> depth(#[trigger] s.take(j)) >= 1
            },
            None => forall|j: int| i <= j <= s.len() ==> depth(#[trigger] s.take(j)) >= 1,
        },
    decreases s.len() - i,
{
    if i < s.len() {
        lemma_depth_step(s, i as int);
        if d + weight(s[i as int]) != 0 {
            lemma_find_close_depth(s, i + 1, d + weight(s[i as int]));
        }
    }
}

/// After a prefix that is balanced in itself, the rest decides.
proof fn lemma_balance_after(s: Seq<Token>, p: int)
    requires
        0 <= p <= s.len(),
        depth(s.take(p)) == 0,
        forall|n: int| 0 <= n <= p ==> depth(#[trigger] s.take(n)) >= 0,
    ensures
        never_negative(s) <==> never_negative(s.skip(p)),
        depth(s) == depth(s.skip(p)),
{
    let rest = s.skip(p);
    assert forall|k: int| 0 <= k <= rest.len() implies depth(s.take(p + k)) == depth(
        #[trigger] rest.take(k),
    ) by {
        assert(s.take(p + k) =~= s.take(p) + rest.take(k));
        lemma_depth_concat(s.take(p), rest.take(k));
    }
    assert(s.take(s.len() as int) =~= s);
    if never_negative(rest) {
        assert forall|n: int| 0 <= n <= s.len() implies depth(#[trigger] s.take(n)) >= 0 by {
            if n > p {
                assert(depth(s.take(p + (n - p))) == depth(rest.take(n - p)));
            }
        }
    }
}

/// The symbols between a bracket and the one that closes it are balanced.
proof fn lemma_body_balanced(s: Seq<Token>, m: int)
    requires
        1 <= m < s.len(),
        s[0] == Token::LEFT_BRACKET,
        depth(s.take(m)) == 1,
        forall|j: int| 1 <= j <= m ==> depth(#[trigger] s.take(j)) >= 1,
    ensures
        balanced(s.subrange(1, m)),
{
    let body = s.subrange(1, m);
    let head = s.take(1);
    lemma_depth_step(s, 0);
    assert forall|k: int| 0 <= k <= body.len() implies depth(#[trigger] body.take(k)) == depth(
        s.take(k + 1),
    ) - 1 by {
        assert(s.take(k + 1) =~= head + body.take(k));
        lemma_depth_concat(head, body.take(k));
    }
    assert(body.take(body.len() as int) =~= body);
}

/// What `parsed` answers for `s` is what the depths of its prefixes say.
pub open spec fn verdict_by_depth(s: Seq<Token>) -> bool {
    &&& parsed(s) is Ok <==> balanced(s)
    &&& parsed(s) == Err::<Seq<Op>, Flaw>(Flaw::Orphaned) <==> !never_negative(s)
    &&& parsed(s) == Err::<Seq<Op>, Flaw>(Flaw::Mismatched) <==> never_negative(s) && depth(s)
        > 0
}

proof fn lemma_verdict_open_unclosed(s: Seq<Token>)
    requires
        s.len() > 0,
        s[0] == Token::LEFT_BRACKET,
        close_index(s) is None,
    ensures
        verdict_by_depth(s),
{
    lemma_depth_step(s, 0);
    lemma_find_close_depth(s, 1, 1);
    assert(s.take(s.len() as int) =~= s);
}

proof fn lemma_verdict_loop(s: Seq<Token>, m: nat)
    requires
        s.len() > 0,
        s[0] == Token::LEFT_BRACKET,
        close_index(s) == Some(m),
        verdict_by_depth(s.subrange(1, m as int)),
        verdict_by_depth(s.skip(m as int + 1)),
    ensures
        verdict_by_depth(s),
{
    lemma_depth_step(s, 0);
    lemma_find_close_depth(s, 1, 1);
    lemma_body_balanced(s, m as int);
    lemma_balance_after(s, m as int + 1);
}

proof fn lemma_verdict_run(s: Seq<Token>)
    requires
        s.len() > 0,
        !s[0].is_bracket(),
        1 <= run_len(s) <= s.len(),
        verdict_by_depth(s.skip(run_len(s) as int)),
    ensures
        verdict_by_depth(s),
{
    lemma_run_len_holds(s);
    let k = run_len(s) as int;
    assert forall|n: int| 0 <= n <= k implies depth(#[trigger] s.take(n)) == 0 by {
        lemma_depth_of_plain_prefix(s, n);
    }
    lemma_balance_after(s, k);
}

/// A sequence of symbols parses exactly when its brackets are balanced. It
/// fails with an orphaned bracket exactly when some prefix closes more loops
/// than it has opened, and with a mismatch exactly when no prefix does and a
/// loop stays open at the end.
pub proof fn lemma_parsed_iff_balanced(s: Seq<Token>)
    ensures
        parsed(s) is Ok <==> balanced(s),
        parsed(s) == Err::<Seq<Op>, Flaw>(Flaw::Orphaned) <==> !never_negative(s),
        parsed(s) == Err::<Seq<Op>, Flaw>(Flaw::Mismatched) <==> never_negative(s) && depth(s)
            > 0,
    decreases s.len(),
{
    if s.len() > 0 {
        if s[0] == Token::LEFT_BRACKET {
            match close_index(s) {
                None => {
                    lemma_verdict_open_unclosed(s);
                },
                Some(m) => {
                    lemma_find_close_bounds(s, 1, 1);
                    lemma_parsed_iff_balanced(s.subrange(1, m as int));
                    lemma_parsed_iff_balanced(s.skip(m as int + 1));
                    lemma_verdict_loop(s, m);
                },
            }
        } else if s[0] == Token::RIGHT_BRACKET {
            lemma_depth_step(s, 0);
        } else {
            lemma_run_len_holds(s);
            lemma_parsed_iff_balanced(s.skip(run_len(s) as int));
            lemma_verdict_run(s);
        }
    }
}

} // verus!
