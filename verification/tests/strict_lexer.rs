use algebra::parser::lexer::Lexer;
use algebra::parser::token::Token;

#[test]
fn strict_lex_tells_operators_from_separators() {
    let mut lexer = Lexer::new("12x_3^4+x_1,7-");
    assert_eq!(
        lexer.lex(),
        Ok(vec![
            Token::Num(12),
            Token::Var('x'),
            Token::Op('_'),
            Token::Num(3),
            Token::Op('^'),
            Token::Num(4),
            Token::Op('+'),
            Token::Var('x'),
            Token::Op('_'),
            Token::Num(1),
            Token::Symbol(','),
            Token::Num(7),
            Token::Op('-'),
            Token::EOF,
        ])
    );
}

#[test]
fn strict_lex_drops_digits_at_the_end() {
    assert_eq!(
        Lexer::new("x_1+7").lex(),
        Ok(vec![
            Token::Var('x'),
            Token::Op('_'),
            Token::Num(1),
            Token::Op('+'),
            Token::EOF,
        ])
    );
    assert_eq!(Lexer::new("").lex(), Ok(vec![Token::EOF]));
}

#[test]
fn strict_lex_names_the_character_it_refuses() {
    assert_eq!(
        Lexer::new("x_1 + 2").lex(),
        Err(String::from("unexpected character ' '"))
    );
    assert_eq!(
        Lexer::new("3y").lex(),
        Err(String::from("unexpected character 'y'"))
    );
    let lexer = Lexer::new("");
    assert_eq!(
        lexer.lex_char('y'),
        Err(String::from("unexpected character 'y'"))
    );
    assert_eq!(lexer.lex_char(','), Ok(Token::Symbol(',')));
    assert_eq!(lexer.lex_char('^'), Ok(Token::Op('^')));
    assert_eq!(lexer.lex_char('7'), Ok(Token::Num(7)));
}

#[test]
fn strict_lex_refuses_a_number_beyond_32_bits() {
    assert_eq!(
        Lexer::new("4294967296,").lex(),
        Err(String::from("number too large"))
    );
    assert_eq!(
        Lexer::new("4294967295,").lex(),
        Ok(vec![Token::Num(4294967295), Token::Symbol(','), Token::EOF])
    );
}
