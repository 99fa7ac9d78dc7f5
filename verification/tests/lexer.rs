use brot::lang::lexer::lex;
use brot::lang::Token;
use brot::lang::Token::{
    COMMA, DOT, GREATER, LEFT_BRACKET, MINUS, PLUS, RIGHT_BRACKET, SMALLER,
};

#[test]
fn lex_pure() {
    let input = "+-<>.,[]";
    let expected = vec![
        PLUS,
        MINUS,
        SMALLER,
        GREATER,
        DOT,
        COMMA,
        LEFT_BRACKET,
        RIGHT_BRACKET,
    ];
    assert_eq!(expected, lex(input));
}

#[test]
fn with_trash() {
    let input = "+ -         < something else > 1235 .


                ,[ I 
                is this how multiline strings 

    work in the
                                                        rust programming language  

                                        Γ ⊢ φ : τ₁ ⊣ e : ℳ


                ]";
    let expected = vec![
        PLUS,
        MINUS,
        SMALLER,
        GREATER,
        DOT,
        COMMA,
        LEFT_BRACKET,
        RIGHT_BRACKET,
    ];
    assert_eq!(expected, lex(input));
}

#[test]
fn token_collatz() {
    let col = ">,[
                            [
                                ----------[
                                    >>>[>>>>]+[[-]+<[->>>>++>>>>+[>>>>]++[->+<<<<<]]<<<]
                                    ++++++[>------<-]>--[>>[->>>>]+>+[<<<<]>-],<
                                ]>
                            ]>>>++>+>>[
                                <<[>>>>[-]+++++++++<[>-<-]+++++++++>[-[<->-]+[<<<<]]<[>+<-]>]
                                >[>[>>>>]+[[-]<[+[->>>>]>+<]>[<+>[<<<<]]+<<<<]>>>[->>>>]+>+[<<<<]]
                                >[[>+>>[<<<<+>>>>-]>]<<<<[-]>[-<<<<]]>>>>>>>
                            ]>>+[[-]++++++>>>>]<<<<[[<++++++++>-]<.[-]<[-]<[-]<]<,
                        ]";
    let result = lex(col);
    let len = col
        .chars()
        .filter(|c| !c.is_whitespace())
        .collect::<Vec<char>>()
        .len();
    let tmp = result;
    assert_eq!(len, tmp.len())
}

#[test]
fn lex_empty_text() {
    assert_eq!(Vec::<Token>::new(), lex(""));
}

#[test]
fn lex_spaced_symbols_and_digits() {
    let expected = vec![
        PLUS,
        MINUS,
        SMALLER,
        GREATER,
        DOT,
        COMMA,
        LEFT_BRACKET,
        RIGHT_BRACKET,
    ];
    assert_eq!(expected, lex("+ - < > 1235 . , [ ]"));
}

#[test]
fn lex_only_other_characters() {
    assert_eq!(Vec::<Token>::new(), lex("hello world 123 \u{393} \u{2133}"));
}

#[test]
fn lex_keeps_order_and_repeats() {
    assert_eq!(vec![RIGHT_BRACKET, RIGHT_BRACKET, PLUS, LEFT_BRACKET], lex("]x]y+z["));
}

#[test]
fn lex_counts_the_symbols_among_the_characters() {
    let text = "a+b\u{e9}-c\u{2192}[d]\u{1f600}.";
    let count = text.chars().filter(|c| "+-<>.,[]".contains(*c)).count();
    assert_eq!(5, count);
    assert_eq!(count, lex(text).len());
}

#[test]
fn token_from_byte() {
    assert_eq!(Ok(PLUS), Token::try_from(43u8));
    assert_eq!(Ok(COMMA), Token::try_from(44u8));
    assert_eq!(Ok(MINUS), Token::try_from(45u8));
    assert_eq!(Ok(DOT), Token::try_from(46u8));
    assert_eq!(Ok(SMALLER), Token::try_from(60u8));
    assert_eq!(Ok(GREATER), Token::try_from(62u8));
    assert_eq!(Ok(LEFT_BRACKET), Token::try_from(91u8));
    assert_eq!(Ok(RIGHT_BRACKET), Token::try_from(93u8));
    assert_eq!(Err(()), Token::try_from(0u8));
    assert_eq!(Err(()), Token::try_from(61u8));
    assert_eq!(Err(()), Token::try_from(255u8));
}

#[test]
fn token_byte_round_trip() {
    let mut found = 0;
    for b in 0..=255u8 {
        if let Ok(token) = Token::try_from(b) {
            assert_eq!(b, token.to_byte());
            found += 1;
        }
    }
    assert_eq!(8, found);
    assert_eq!(b'<', SMALLER.to_byte());
    assert_eq!(b'>', GREATER.to_byte());
}

#[test]
fn token_loop_beginning() {
    assert!(LEFT_BRACKET.is_loop_beginning());
    assert!(!RIGHT_BRACKET.is_loop_beginning());
    assert!(!PLUS.is_loop_beginning());
}
