//! The scanner: picks the symbols of the language out of program text.

use crate::lang::Token;
use vstd::prelude::*;
use vstd::string::StringSliceAdditionalSpecFns;
use vstd::utf8::{encode_scalar, encode_utf8, has_width_1_encoding};

verus! {

/// The symbols among `bytes`, in their order; every other byte is left out.
pub open spec fn scanned(bytes: Seq<u8>) -> Seq<Token>
    decreases bytes.len(),
{
    if bytes.len() == 0 {
        Seq::empty()
    } else {
        match Token::of_byte(bytes.last()) {
            Some(token) => scanned(bytes.drop_last()).push(token),
            None => scanned(bytes.drop_last()),
        }
    }
}

/// The symbol that a character of program text stands for, if any.
pub open spec fn symbol_of(c: char) -> Option<Token> {
    if c as u32 <= 0x7f {
        Token::of_byte(c as u8)
    } else {
        None
    }
}

/// The symbols among `chars`, in their order; every other character is
/// left out.
pub open spec fn symbols(chars: Seq<char>) -> Seq<Token>
    decreases chars.len(),
{
    if chars.len() == 0 {
        Seq::empty()
    } else {
        match symbol_of(chars[0]) {
            Some(token) => seq![token] + symbols(chars.drop_first()),
            None => symbols(chars.drop_first()),
        }
    }
}

/// Scanning two sequences of bytes in a row gives the symbols of the first
/// and then those of the second.
pub proof fn lemma_scanned_concat(a: Seq<u8>, b: Seq<u8>)
    ensures
        scanned(a + b) == scanned(a) + scanned(b),
    decreases b.len(),
{
    if b.len() > 0 {
        assert((a + b).drop_last() =~= a + b.drop_last());
        lemma_scanned_concat(a, b.drop_last());
        if let Some(token) = Token::of_byte(b.last()) {
            assert((scanned(a) + scanned(b.drop_last())).push(token) =~= scanned(a) + scanned(
                b.drop_last(),
            ).push(token));
        }
    }
}

/// No byte from 0x80 on stands for a symbol.
proof fn lemma_scanned_high_bytes(bytes: Seq<u8>)
    requires
        forall|i: int| 0 <= i < bytes.len() ==> #[trigger] bytes[i] >= 0x80,
    ensures
        scanned(bytes) == Seq::<Token>::empty(),
    decreases bytes.len(),
{
    if bytes.len() > 0 {
        lemma_scanned_high_bytes(bytes.drop_last());
    }
}

/// The bytes that encode one character hold that character's symbol, if it
/// stands for one, and no other.
proof fn lemma_scanned_scalar(c: char)
    ensures
        scanned(encode_scalar(c as u32)) == match symbol_of(c) {
            Some(token) => seq![token],
            None => Seq::<Token>::empty(),
        },
{
    let v = c as u32;
    let bytes = encode_scalar(v);
    if has_width_1_encoding(v) {
        assert(v <= 0x7f ==> (v & 0x7f) as u8 == v as u8) by (bit_vector);
        assert(scanned(bytes.drop_last()) =~= Seq::<Token>::empty());
    } else {
        assert(forall|y: u8| 0xC0u8 | y >= 0x80) by (bit_vector);
        assert(forall|y: u8| 0xE0u8 | y >= 0x80) by (bit_vector);
        assert(forall|y: u8| 0xF0u8 | y >= 0x80) by (bit_vector);
        assert(forall|y: u8| 0x80u8 | y >= 0x80) by (bit_vector);
        lemma_scanned_high_bytes(bytes);
    }
}

/// To scan the bytes of a text is to pick the symbols out of its
/// characters: as many come out as there are characters that stand for a
/// symbol, in the order of the text.
pub proof fn lemma_scanned_text(chars: Seq<char>)
    ensures
        scanned(encode_utf8(chars)) == symbols(chars),
    decreases chars.len(),
{
    if chars.len() > 0 {
        lemma_scanned_text(chars.drop_first());
        lemma_scanned_scalar(chars[0]);
        lemma_scanned_concat(encode_scalar(chars[0] as u32), encode_utf8(chars.drop_first()));
        if symbol_of(chars[0]) is None {
            assert(Seq::<Token>::empty() + symbols(chars.drop_first()) =~= symbols(
                chars.drop_first(),
            ));
        }
    }
}

/// Scans program text, byte by byte, for the symbols of the language.
pub fn lex(input: &str) -> (out: Vec<Token>)
    ensures
        out@ == scanned(input.spec_bytes()),
        out@ == symbols(input@),
{
    proof {
        lemma_scanned_text(input@);
    }
    let bytes = input.as_bytes();
    let mut out: Vec<Token> = Vec::new();
    let mut i: usize = 0;
    while i < bytes.len()
        invariant
            i <= bytes.len(),
            out@ == scanned(bytes@.take(i as int)),
        decreases bytes.len() - i,
    {
        assert(bytes@.take(i + 1).drop_last() =~= bytes@.take(i as int));
        match Token::try_from(bytes[i]) {
            Ok(token) => {
                out.push(token);
            },
            Err(_) => {},
        }
        i = i + 1;
    }
    assert(bytes@.take(i as int) =~= bytes@);
    out
}

} // verus!
