use alaybey::compiler::{
    check_lexer, lexer, parser, token_to_instruction, try_check_lexer, try_lexer, try_parser, SyntaxError, Token,
    HALT_NSTRUCTON,
};

fn texts(tokens: &[Token]) -> Vec<&str> {
    tokens.iter().map(|t| t.syntax_token.as_str()).collect()
}

fn toks(words: &[&str]) -> Vec<Token> {
    words.iter().map(|w| Token { syntax_token: w.to_string() }).collect()
}

const EXAMPLE: &str = "{\n\n3 5 + 7 - 8 + 2 /;\n\n10 5 - 4 * 8 + 4 /;\n\n}\n";

const VARIABLES: &str = "{\n\n$ val1 : 3 5 + 7 - 8 + 2 /;\n\n$ my_other_val : 10 5 - val1 * 8 + 4 /;\n\n$ result : my_other_val val1 - val1 * 8 + 4 /;\n\n}\n";

#[test]
fn lexer_cuts_the_example() {
    let tokens = lexer(EXAMPLE);
    assert_eq!(
        texts(&tokens),
        vec!["{", "3", "5", "+", "7", "-", "8", "+", "2", "/", ";", "10", "5", "-", "4", "*", "8", "+", "4", "/", ";", "}"]
    );
}

#[test]
fn lexer_skips_colons_and_keeps_variable_names() {
    let tokens = lexer(VARIABLES);
    let t = texts(&tokens);
    assert_eq!(&t[0..13], &["{", "$", "val1", "3", "5", "+", "7", "-", "8", "+", "2", "/", ";"]);
    assert_eq!(t[13], "$");
    assert_eq!(t[14], "my_other_val");
    assert_eq!(t.last(), Some(&"}"));
    assert_eq!(t.len(), 38);
}

#[test]
fn lexer_keeps_carriage_returns_in_tokens() {
    let tokens = lexer("{\r\n3 5 +;\r\n}\r\n");
    assert_eq!(texts(&tokens), vec!["{", "\r3", "5", "+", ";", "}"]);
}

#[test]
fn parser_encodes_the_example() {
    let words = parser(lexer(EXAMPLE));
    assert_eq!(
        words,
        vec![
            0x40000007, 3, 5, 0x40000001, 7, 0x40000002, 8, 0x40000001, 2, 0x40000004, 0x40000006,
            10, 5, 0x40000002, 4, 0x40000003, 8, 0x40000001, 4, 0x40000004, 0x40000006, 0x40000008,
            0x40000000
        ]
    );
}

#[test]
fn parser_numbers_variables() {
    let words = parser(lexer(VARIABLES));
    assert_eq!(&words[0..3], &[0x40000007, 0x40000009, 0xA0000001u32 as i32]);
    assert_eq!(words[14], 0xA0000002u32 as i32);
    assert_eq!(words[18], 0x60000001);
    assert_eq!(words[26], 0xA0000003u32 as i32);
    assert_eq!(words[27], 0x60000002);
    assert_eq!(words.len(), 39);
    assert_eq!(*words.last().unwrap(), HALT_NSTRUCTON);
}

#[test]
fn one_word_per_token_then_halt() {
    let tokens = lexer(VARIABLES);
    let n = tokens.len();
    let words = parser(tokens);
    assert_eq!(words.len(), n + 1);
    assert_eq!(words[n], HALT_NSTRUCTON);
}

#[test]
fn tokens_hold_no_separators() {
    let tokens = try_lexer("{\n$ a : 1\t2 +;\n3 a  *;\n}").ok();
    assert!(tokens.is_none());
    let tokens = lexer("{\n$ a : 1 2 +;\n3   a *;\n}");
    for t in &tokens {
        assert!(!t.syntax_token.is_empty());
        assert!(!t.syntax_token.contains(|c| c == ' ' || c == '\n' || c == '\t' || c == ':'));
    }
    assert_eq!(texts(&tokens), vec!["{", "$", "a", "1", "2", "+", ";", "3", "a", "*", ";", "}"]);
}

#[test]
fn parser_trims_numbers() {
    assert_eq!(parser(toks(&[" 5 ", "-7", "+8"])), vec![5, -7, 8, 0x40000000]);
    assert_eq!(parser(toks(&["536870910"])), vec![536870910, 0x40000000]);
    assert_eq!(parser(toks(&["-536870912"])), vec![-536870912, 0x40000000]);
    assert_eq!(parser(toks(&[])), vec![0x40000000]);
}

#[test]
fn parser_errors() {
    assert!(matches!(try_parser(toks(&["536870911"])), Err(SyntaxError::NumberOutOfRange)));
    assert!(matches!(try_parser(toks(&["-536870913"])), Err(SyntaxError::NumberOutOfRange)));
    assert!(matches!(try_parser(toks(&["-1610612735"])), Err(SyntaxError::NumberOutOfRange)));
    assert!(matches!(try_parser(toks(&["x"])), Err(SyntaxError::InvalidInstruction)));
    assert!(matches!(try_parser(toks(&["1", "a"])), Err(SyntaxError::InvalidInstruction)));
    assert!(matches!(try_parser(toks(&["$", "a", "$", "a"])), Err(SyntaxError::DuplicateVariable)));
    assert!(matches!(try_parser(toks(&["99999999999"])), Err(SyntaxError::InvalidInstruction)));
    assert_eq!(try_parser(toks(&["-7"])).ok().unwrap(), vec![-7, 0x40000000]);
}

#[test]
fn lexer_syntax_errors() {
    assert!(matches!(try_lexer("3 5 +;"), Err(SyntaxError::BracketsMissing)));
    assert!(matches!(try_lexer(""), Err(SyntaxError::BracketsMissing)));
    assert!(matches!(try_lexer("{\n3 5 +\n}"), Err(SyntaxError::SemicolonMissing)));
    assert!(matches!(try_lexer("{\n12;\n}"), Err(SyntaxError::PatternError)));
    assert!(matches!(try_lexer("{\n3 5 + 7 x;\n}"), Err(SyntaxError::UnknownOperator)));
    assert!(matches!(try_lexer("{\n3 5 + x;\n}"), Err(SyntaxError::UndefinedOperand)));
    assert!(matches!(try_lexer("{\n$ a 3 5 +;\n}"), Err(SyntaxError::MissingColon)));
    match try_lexer("{\n3 x +;\n}") {
        Err(SyntaxError::UndefinedVariable(name)) => assert_eq!(name, "x"),
        _ => panic!("expected an undefined variable"),
    }
    match try_lexer("{\n$ a : 3 5 +;\n$ a : 1 2 +;\n}") {
        Err(SyntaxError::VariableDefinedBefore(name)) => assert_eq!(name, "a"),
        _ => panic!("expected a second definition"),
    }
}

#[test]
fn check_lexer_cases() {
    assert!(try_check_lexer(vec!["{", "}"]).is_ok());
    assert!(try_check_lexer(vec!["{", ";", "}"]).is_ok());
    assert!(try_check_lexer(vec!["{", "$ a : 1 2 +;", "a 3 *;", "}"]).is_ok());
    assert!(matches!(try_check_lexer(vec![]), Err(SyntaxError::BracketsMissing)));
    assert!(matches!(try_check_lexer(vec!["{"]), Err(SyntaxError::BracketsMissing)));
    assert!(matches!(try_check_lexer(vec!["{", "", "}"]), Err(SyntaxError::EmptyLine)));
    assert!(matches!(try_check_lexer(vec!["{", "1 2 +;x", "}"]), Err(SyntaxError::SemicolonMissing)));
    assert!(try_check_lexer(vec!["{", "1 2 +;x;", "}"]).is_ok());
    assert!(matches!(
        try_check_lexer(vec!["{", "a 2 +;", "$ a : 1 2 +;", "}"]),
        Err(SyntaxError::UndefinedVariable(_))
    ));
    check_lexer(vec!["{", "$ a : 1 2 +;", "a 3 *;", "}"]);
}

#[test]
fn syntax_error_messages() {
    assert_eq!(SyntaxError::BracketsMissing.message(), "syntax error.. Brackets missing!");
    assert_eq!(SyntaxError::SemicolonMissing.message(), "syntax error.. Semicolon missing!");
    assert_eq!(
        SyntaxError::VariableDefinedBefore("abc".to_string()).message(),
        "this variable defined before: abc"
    );
    assert_eq!(
        SyntaxError::UndefinedVariable("q".to_string()).message(),
        "variable not defined before: q"
    );
    assert_eq!(
        SyntaxError::NumberOutOfRange.message(),
        "Out of range nuber! Maximum number should be less than 536870911"
    );
}

#[test]
fn instruction_tokens_have_their_words() {
    let ops = ['+', '-', '*', '/', '%', ';', '{', '}', '$'];
    for (i, c) in ops.iter().enumerate() {
        assert_eq!(token_to_instruction(&[*c]), Some(0x40000001 + i as u32));
    }
    assert_eq!(token_to_instruction(&['x']), None);
    assert_eq!(token_to_instruction(&['+', '+']), None);
    assert_eq!(token_to_instruction(&[]), None);
}
