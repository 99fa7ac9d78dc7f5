use brot::lang::parser::parse;
use brot::lang::Syntax;
use brot::lang::Syntax::{Decr, Incr, Loop, Read, ShiftL, ShiftR, Write};
use brot::lang::Token::{
    COMMA, DOT, GREATER, LEFT_BRACKET, MINUS, PLUS, RIGHT_BRACKET, SMALLER,
};

type TestResult = Result<(), Box<dyn std::error::Error>>;

#[test]
fn parse_5_plus() -> TestResult {
    let in_ = vec![PLUS, PLUS, PLUS, PLUS, PLUS];
    let result = parse(in_)?;
    assert_eq!(vec![Syntax::Incr(5)], result);
    Ok(())
}

#[test]
fn parse_5_minus() -> TestResult {
    let in_ = vec![MINUS, MINUS, MINUS, MINUS, MINUS];
    let result = parse(in_)?;
    assert_eq!(vec![Syntax::Decr(5)], result);
    Ok(())
}

#[test]
fn parse_5_greater() -> TestResult {
    // >
    let in_ = vec![GREATER, GREATER, GREATER, GREATER, GREATER];
    let result = parse(in_)?;
    assert_eq!(vec![Syntax::ShiftR(5)], result);
    Ok(())
}

#[test]
fn parse_5_smaller() -> TestResult {
    // <
    let in_ = vec![SMALLER, SMALLER, SMALLER, SMALLER, SMALLER];
    let result = parse(in_)?;
    assert_eq!(vec![Syntax::ShiftL(5)], result);
    Ok(())
}

#[test]
fn parse_empty_loop() -> TestResult {
    let in_ = vec![LEFT_BRACKET, RIGHT_BRACKET];
    let result = parse(in_)?;
    assert_eq!(vec![Syntax::Loop(vec![])], result);
    Ok(())
}

#[test]
fn parse_before_and_after_loop() -> TestResult {
    let in_ = vec![
        PLUS,
        MINUS,
        MINUS,
        LEFT_BRACKET,
        RIGHT_BRACKET,
        GREATER,
        SMALLER,
    ];
    let result = parse(in_)?;
    assert_eq!(
        vec![Incr(1), Decr(2), Syntax::Loop(vec![]), ShiftR(1), ShiftL(1)],
        result
    );
    Ok(())
}

#[test]
fn parse_with_body_flat() -> TestResult {
    let in_ = vec![LEFT_BRACKET, PLUS, PLUS, MINUS, RIGHT_BRACKET];
    let result = parse(in_)?;
    assert_eq!(vec![Syntax::Loop(vec![Incr(2), Decr(1)])], result);
    Ok(())
}

#[test]
fn parse_with_body_nested() -> TestResult {
    let in_ = vec![
        LEFT_BRACKET,
        PLUS,
        LEFT_BRACKET,
        PLUS,
        RIGHT_BRACKET,
        MINUS,
        RIGHT_BRACKET,
    ];
    let result = parse(in_)?;
    assert_eq!(
        vec![Syntax::Loop(vec![Incr(1), Loop(vec![Incr(1)]), Decr(1)])],
        result
    );
    Ok(())
}

#[test]
fn parse_incorrect_brackets() -> TestResult {
    let in_ = vec![LEFT_BRACKET, PLUS, PLUS, PLUS];
    let err = parse(in_);
    assert_eq!(true, err.is_err());
    Ok(())
}

#[test]
fn parse_incorrect_brackets_flipped() -> TestResult {
    let in_ = vec![RIGHT_BRACKET, LEFT_BRACKET];
    let err = parse(in_);
    assert_eq!(true, err.is_err());
    Ok(())
}

#[test]
fn parse_empty_input() {
    assert_eq!(Ok(vec![]), parse(vec![]));
}

#[test]
fn parse_single_symbols() {
    assert_eq!(Ok(vec![Incr(1)]), parse(vec![PLUS]));
    assert_eq!(Ok(vec![Decr(1)]), parse(vec![MINUS]));
    assert_eq!(Ok(vec![ShiftR(1)]), parse(vec![GREATER]));
    assert_eq!(Ok(vec![ShiftL(1)]), parse(vec![SMALLER]));
    assert_eq!(Ok(vec![Write(1)]), parse(vec![DOT]));
    assert_eq!(Ok(vec![Read(1)]), parse(vec![COMMA]));
}

#[test]
fn parse_folds_writes_and_reads() {
    assert_eq!(
        Ok(vec![Write(3), Read(2), Write(1)]),
        parse(vec![DOT, DOT, DOT, COMMA, COMMA, DOT])
    );
}

#[test]
fn parse_run_is_broken_by_a_loop() {
    assert_eq!(
        Ok(vec![Incr(2), Loop(vec![]), Incr(1)]),
        parse(vec![PLUS, PLUS, LEFT_BRACKET, RIGHT_BRACKET, PLUS])
    );
}

#[test]
fn parse_loops_in_a_row_and_in_depth() {
    assert_eq!(
        Ok(vec![Loop(vec![Loop(vec![Loop(vec![])])]), Loop(vec![Decr(1)])]),
        parse(vec![
            LEFT_BRACKET,
            LEFT_BRACKET,
            LEFT_BRACKET,
            RIGHT_BRACKET,
            RIGHT_BRACKET,
            RIGHT_BRACKET,
            LEFT_BRACKET,
            MINUS,
            RIGHT_BRACKET,
        ])
    );
}

#[test]
fn parse_unclosed_loop_message() {
    assert_eq!(
        Err("Mismatched brackets in loop".to_string()),
        parse(vec![LEFT_BRACKET, PLUS, PLUS, PLUS])
    );
    assert_eq!(
        Err("Mismatched brackets in loop".to_string()),
        parse(vec![PLUS, LEFT_BRACKET, LEFT_BRACKET, RIGHT_BRACKET])
    );
}

#[test]
fn parse_orphaned_close_message() {
    assert_eq!(Err("Found orphaned ]".to_string()), parse(vec![RIGHT_BRACKET, LEFT_BRACKET]));
    assert_eq!(
        Err("Found orphaned ]".to_string()),
        parse(vec![LEFT_BRACKET, RIGHT_BRACKET, RIGHT_BRACKET])
    );
    assert_eq!(Err("Found orphaned ]".to_string()), parse(vec![PLUS, RIGHT_BRACKET]));
}

#[test]
fn parse_first_flaw_wins() {
    assert_eq!(
        Err("Found orphaned ]".to_string()),
        parse(vec![RIGHT_BRACKET, LEFT_BRACKET, LEFT_BRACKET])
    );
    assert_eq!(
        Err("Mismatched brackets in loop".to_string()),
        parse(vec![LEFT_BRACKET, LEFT_BRACKET, RIGHT_BRACKET])
    );
}

#[test]
fn parse_long_run_has_one_count() {
    let tokens = vec![MINUS; 1000];
    assert_eq!(Ok(vec![Syntax::Decr(1000)]), parse(tokens));
}

#[test]
fn syntax_from_token() {
    assert_eq!(Syntax::Incr(4), Syntax::from_token(PLUS, 4));
    assert_eq!(Syntax::Decr(1), Syntax::from_token(MINUS, 1));
    assert_eq!(Syntax::ShiftR(2), Syntax::from_token(GREATER, 2));
    assert_eq!(Syntax::ShiftL(3), Syntax::from_token(SMALLER, 3));
    assert_eq!(Syntax::Write(5), Syntax::from_token(DOT, 5));
    assert_eq!(Syntax::Read(6), Syntax::from_token(COMMA, 6));
}

fn written(nodes: &[Syntax], out: &mut Vec<brot::lang::Token>) {
    for node in nodes {
        match node {
            Incr(n) => out.extend(vec![PLUS; *n]),
            Decr(n) => out.extend(vec![MINUS; *n]),
            ShiftL(n) => out.extend(vec![SMALLER; *n]),
            ShiftR(n) => out.extend(vec![GREATER; *n]),
            Write(n) => out.extend(vec![DOT; *n]),
            Read(n) => out.extend(vec![COMMA; *n]),
            Loop(body) => {
                out.push(LEFT_BRACKET);
                written(body, out);
                out.push(RIGHT_BRACKET);
            }
        }
    }
}

#[test]
fn parse_result_writes_back_to_its_symbols() {
    let texts = [
        "",
        "+",
        "++--<<>>..,,",
        "[]",
        "[[][]]",
        "+[-[->+<]>.,<]<<",
        ">,[[----------[>>>[>>>>]+[[-]+<[->>>>++>>>>+[>>>>]++[->+<<<<<]]<<<]++++++[>------<-]>--[>>[->>>>]+>+[<<<<]>-],<]>]>>>++>+>>[<<[>>>>[-]+++++++++<[>-<-]+++++++++>[-[<->-]+[<<<<]]<[>+<-]>]>[>[>>>>]+[[-]<[+[->>>>]>+<]>[<+>[<<<<]]+<<<<]>>>[->>>>]+>+[<<<<]]>[[>+>>[<<<<+>>>>-]>]<<<<[-]>[-<<<<]]>>>>>>>]>>+[[-]++++++>>>>]<<<<[[<++++++++>-]<.[-]<[-]<[-]<]<,]",
    ];
    for text in texts {
        let tokens = brot::lang::lexer::lex(text);
        let nodes = parse(tokens.clone()).unwrap();
        let mut back = Vec::new();
        written(&nodes, &mut back);
        assert_eq!(tokens, back);
    }
}

#[test]
fn parse_fails_exactly_on_unbalanced_brackets() {
    let texts = ["", "[]", "][", "[", "]", "[[]", "[]]", "[][]", "[[]]", "+[", "+]", "[+]-]", "[[+]"];
    for text in texts {
        let mut depth: i64 = 0;
        let mut balanced = true;
        for c in text.chars() {
            if c == '[' {
                depth += 1;
            } else if c == ']' {
                depth -= 1;
            }
            if depth < 0 {
                balanced = false;
            }
        }
        if depth != 0 {
            balanced = false;
        }
        assert_eq!(balanced, parse(brot::lang::lexer::lex(text)).is_ok());
    }
}
