//! The symbols of the language, the operation tree, and the three stages that
//! lead from program text to a final tape.

use vstd::pervasive::unreached;
use vstd::prelude::*;
use vstd::std_specs::convert::TryFromSpecImpl;

pub mod balance;
pub mod conduct;
pub mod folding;
pub mod interpreter;
pub mod lexer;
pub mod parser;
pub mod render;

verus! {

/// One of the eight symbols of the language.
#[allow(non_camel_case_types)]
#[derive(PartialEq, Eq, Structural, Debug, Clone, Copy)]
pub enum Token {
    /// `+`
    PLUS,
    /// `-`
    MINUS,
    /// `>`
    GREATER,
    /// `<`
    SMALLER,
    /// `.`
    DOT,
    /// `,`
    COMMA,
    /// `[`
    LEFT_BRACKET,
    /// `]`
    RIGHT_BRACKET,
}

impl Token {
    /// The byte that stands for this symbol in program text.
    pub open spec fn byte(self) -> u8 {
        match self {
            Token::PLUS => 43,
            Token::COMMA => 44,
            Token::MINUS => 45,
            Token::DOT => 46,
            Token::SMALLER => 60,
            Token::GREATER => 62,
            Token::LEFT_BRACKET => 91,
            Token::RIGHT_BRACKET => 93,
        }
    }

    /// The symbol that a byte of program text stands for, if any.
    pub open spec fn of_byte(b: u8) -> Option<Token> {
        if b == 43 {
            Some(Token::PLUS)
        } else if b == 44 {
            Some(Token::COMMA)
        } else if b == 45 {
            Some(Token::MINUS)
        } else if b == 46 {
            Some(Token::DOT)
        } else if b == 60 {
            Some(Token::SMALLER)
        } else if b == 62 {
            Some(Token::GREATER)
        } else if b == 91 {
            Some(Token::LEFT_BRACKET)
        } else if b == 93 {
            Some(Token::RIGHT_BRACKET)
        } else {
            None
        }
    }

    /// Whether the symbol opens or closes a loop.
    pub open spec fn is_bracket(self) -> bool {
        self == Token::LEFT_BRACKET || self == Token::RIGHT_BRACKET
    }

    /// Whether the symbol opens a loop.
    pub fn is_loop_beginning(&self) -> (r: bool)
        ensures
            r == (*self == Token::LEFT_BRACKET),
    {
        match self {
            Token::LEFT_BRACKET => true,
            _ => false,
        }
    }

    /// The byte that stands for this symbol in program text.
    pub fn to_byte(&self) -> (b: u8)
        ensures
            b == self.byte(),
    {
        match self {
            Token::PLUS => 43,
            Token::COMMA => 44,
            Token::MINUS => 45,
            Token::DOT => 46,
            Token::SMALLER => 60,
            Token::GREATER => 62,
            Token::LEFT_BRACKET => 91,
            Token::RIGHT_BRACKET => 93,
        }
    }
}

impl TryFrom<u8> for Token {
    type Error = ();

    /// The symbol that `value` stands for; an error for every other byte.
    fn try_from(value: u8) -> (r: Result<Self, Self::Error>) {
        match value {
            43 => Ok(Token::PLUS),
            44 => Ok(Token::COMMA),
            45 => Ok(Token::MINUS),
            46 => Ok(Token::DOT),
            60 => Ok(Token::SMALLER),
            62 => Ok(Token::GREATER),
            91 => Ok(Token::LEFT_BRACKET),
            93 => Ok(Token::RIGHT_BRACKET),
            _ => Err(()),
        }
    }
}

impl TryFromSpecImpl<u8> for Token {
    open spec fn obeys_try_from_spec() -> bool {
        true
    }

    open spec fn try_from_spec(value: u8) -> Result<Self, Self::Error> {
        match Token::of_byte(value) {
            Some(t) => Ok(t),
            None => Err(()),
        }
    }
}

/// A symbol and the byte it is written as determine each other.
pub proof fn lemma_token_byte_round_trip(t: Token, b: u8)
    ensures
        Token::of_byte(t.byte()) == Some(t),
        Token::of_byte(b) == Some(t) <==> b == t.byte(),
{
}

/// One node of a parsed program.
#[derive(Debug, PartialEq)]
pub enum Syntax {
    /// `+`, so many times in a row.
    Incr(usize),
    /// `-`, so many times in a row.
    Decr(usize),
    /// `<`, so many times in a row.
    ShiftL(usize),
    /// `>`, so many times in a row.
    ShiftR(usize),
    /// `.`, so many times in a row.
    Write(usize),
    /// `,`, so many times in a row.
    Read(usize),
    /// A bracketed region, which may be empty.
    Loop(Vec<Syntax>),
}

/// The mathematical form of a [`Syntax`] node: counts are natural numbers and
/// a loop body is a sequence.
pub ghost enum Op {
    Incr(nat),
    Decr(nat),
    ShiftL(nat),
    ShiftR(nat),
    Write(nat),
    Read(nat),
    Loop(Seq<Op>),
}

/// The mathematical form of a node.
pub open spec fn op_of(node: Syntax) -> Op
    decreases node,
{
    match node {
        Syntax::Incr(n) => Op::Incr(n as nat),
        Syntax::Decr(n) => Op::Decr(n as nat),
        Syntax::ShiftL(n) => Op::ShiftL(n as nat),
        Syntax::ShiftR(n) => Op::ShiftR(n as nat),
        Syntax::Write(n) => Op::Write(n as nat),
        Syntax::Read(n) => Op::Read(n as nat),
        Syntax::Loop(body) => Op::Loop(
            Seq::new(
                body@.len(),
                |i: int|
                    if 0 <= i < body@.len() {
                        op_of(body@[i])
                    } else {
                        Op::Incr(0)
                    },
            ),
        ),
    }
}

impl View for Syntax {
    type V = Op;

    open spec fn view(&self) -> Op {
        op_of(*self)
    }
}

/// The mathematical form of a sequence of nodes.
pub open spec fn ops_of(nodes: Seq<Syntax>) -> Seq<Op> {
    Seq::new(nodes.len(), |i: int| nodes[i]@)
}

/// The operation that `count` repetitions of a symbol fold into. Brackets
/// fold into nothing; for them the value is arbitrary.
pub open spec fn counted(token: Token, count: nat) -> Op {
    match token {
        Token::PLUS => Op::Incr(count),
        Token::MINUS => Op::Decr(count),
        Token::GREATER => Op::ShiftR(count),
        Token::SMALLER => Op::ShiftL(count),
        Token::DOT => Op::Write(count),
        Token::COMMA => Op::Read(count),
        Token::LEFT_BRACKET | Token::RIGHT_BRACKET => arbitrary(),
    }
}

/// The view of a loop node is the loop over the views of its body.
pub proof fn lemma_view_of_loop(body: Vec<Syntax>)
    ensures
        Syntax::Loop(body)@ == Op::Loop(ops_of(body@)),
{
    reveal_with_fuel(op_of, 2);
    assert(Syntax::Loop(body)@->Loop_0 =~= ops_of(body@));
}

impl Syntax {
    /// The node for `amount` repetitions of a symbol that is no bracket.
    pub fn from_token(token: Token, amount: usize) -> (r: Syntax)
        requires
            !token.is_bracket(),
        ensures
            r@ == counted(token, amount as nat),
    {
        match token {
            Token::PLUS => Syntax::Incr(amount),
            Token::MINUS => Syntax::Decr(amount),
            Token::GREATER => Syntax::ShiftR(amount),
            Token::SMALLER => Syntax::ShiftL(amount),
            Token::DOT => Syntax::Write(amount),
            Token::COMMA => Syntax::Read(amount),
            Token::LEFT_BRACKET | Token::RIGHT_BRACKET => unreached(),
        }
    }
}

} // verus!
