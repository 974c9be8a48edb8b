use algebra::algebra::fp;
use algebra::equation_parser::lexer::Lexer;
use algebra::equation_parser::parser;
use algebra::equation_parser::parser::Parser;
use algebra::equation_parser::token::Token;
use algebra::polynomial::monomial::Monomial;
use algebra::polynomial::poly::Polynomial;

const P: u32 = 5;
type Fp = fp::Fp<P>;

#[test]
fn test_parse() {
    let eq1 = "4x_1x_2^3 + 3x_2^4x_3^5 + x_1 + 4, x_1^2 + 2";

    match parser::parse(eq1) {
        Ok(poly) => {
            assert_eq!(poly.len(), 2);
            assert_eq!(
                poly[0],
                Polynomial::new(vec![
                    Monomial::new(Fp::new(4), [1, 3, 0]),
                    Monomial::new(Fp::new(3), [0, 4, 5]),
                    Monomial::new(Fp::new(1), [1, 0, 0]),
                    Monomial::new(Fp::new(4), [0, 0, 0]),
                ])
            );
            assert_eq!(
                poly[1],
                Polynomial::new(vec![
                    Monomial::new(Fp::new(1), [2, 0, 0]),
                    Monomial::new(Fp::new(2), [0, 0, 0]),
                ])
            );
        }
        Err(msg) => {
            println!("{}", msg);
            panic!();
        }
    }
}

fn parse3(text: &str) -> Result<Vec<Polynomial<Fp, 3>>, &'static str> {
    parser::parse::<P, 3>(text)
}

#[test]
fn lex_gives_the_tokens_in_order() {
    let mut lexer = Lexer::new("12x_3^4 + x_1,7");
    assert_eq!(
        lexer.lex(),
        Ok(vec![
            Token::Num(12),
            Token::Var('x'),
            Token::Symb('_'),
            Token::Num(3),
            Token::Symb('^'),
            Token::Num(4),
            Token::Symb('+'),
            Token::Var('x'),
            Token::Symb('_'),
            Token::Num(1),
            Token::Symb(','),
            Token::Num(7),
            Token::EOF,
        ])
    );
}

#[test]
fn lex_of_nothing_is_the_end_alone() {
    assert_eq!(Lexer::new("").lex(), Ok(vec![Token::EOF]));
    assert_eq!(Lexer::new("   ").lex(), Ok(vec![Token::EOF]));
}

#[test]
fn lex_drops_a_number_that_is_zero() {
    assert_eq!(
        Lexer::new("0+00").lex(),
        Ok(vec![Token::Symb('+'), Token::EOF])
    );
}

#[test]
fn lex_joins_digits_across_blanks() {
    assert_eq!(Lexer::new("1 2").lex(), Ok(vec![Token::Num(12), Token::EOF]));
}

#[test]
fn lex_refuses_other_characters() {
    assert_eq!(Lexer::new("3y").lex(), Err("unexpected character"));
    assert_eq!(Lexer::new("x_1 * 2").lex(), Err("unexpected character"));
    assert_eq!(parse3("x_1 = 2"), Err("unexpected character"));
}

#[test]
fn lex_refuses_a_number_beyond_32_bits() {
    assert_eq!(
        Lexer::new("4294967295").lex(),
        Ok(vec![Token::Num(4294967295), Token::EOF])
    );
    assert_eq!(Lexer::new("4294967296").lex(), Err("number too large"));
}

#[test]
fn lex_char_maps_each_character() {
    let lexer = Lexer::new("");
    assert_eq!(lexer.lex_char('0'), Ok(Token::Num(0)));
    assert_eq!(lexer.lex_char('9'), Ok(Token::Num(9)));
    assert_eq!(lexer.lex_char('x'), Ok(Token::Var('x')));
    assert_eq!(lexer.lex_char('_'), Ok(Token::Symb('_')));
    assert_eq!(lexer.lex_char(' '), Ok(Token::Symb(' ')));
    assert_eq!(lexer.lex_char('y'), Err("unexpected character"));
}

#[test]
fn parse_reduces_coefficients() {
    assert_eq!(
        parse3("12x_2"),
        Ok(vec![Polynomial::new(vec![Monomial::new(Fp::new(2), [0, 1, 0])])])
    );
    let polys = parse3("12x_2").unwrap();
    assert_eq!(polys[0].monos[0].coef.value(), 2);
}

#[test]
fn parse_adds_repeated_variables() {
    let polys = parse3("x_1x_1^2x_3").unwrap();
    assert_eq!(polys[0].monos[0].degree, [3, 0, 1]);
    assert_eq!(polys[0].monos[0].coef.value(), 1);
}

#[test]
fn parse_takes_minus_as_a_separator() {
    let polys = parse3("x_1 - 2").unwrap();
    assert_eq!(polys[0].monos.len(), 2);
    assert_eq!(polys[0].monos[1].coef.value(), 2);
}

#[test]
fn parse_refuses_an_empty_term() {
    assert_eq!(parse3(""), Err("empty term"));
    assert_eq!(parse3("x_1 +"), Err("empty term"));
    assert_eq!(parse3("x_1,"), Err("empty term"));
}

#[test]
fn parse_refuses_a_broken_variable() {
    assert_eq!(parse3("x"), Err("'x' is invalid"));
    assert_eq!(parse3("x_"), Err("'x_' is invalid"));
    assert_eq!(parse3("x_1^"), Err("'^' is invalid"));
    assert_eq!(parse3("x_1^x_2"), Err("'^' is invalid"));
}

#[test]
fn parse_refuses_an_index_outside_the_variables() {
    assert_eq!(parse3("x_4"), Err("variable index out of range"));
    let mut parser = Parser::new(vec![
        Token::Var('x'),
        Token::Symb('_'),
        Token::Num(0),
        Token::EOF,
    ]);
    assert_eq!(
        parser.parse::<P, 3>(),
        Err("variable index out of range")
    );
}

#[test]
fn parse_refuses_an_exponent_beyond_32_bits() {
    assert_eq!(
        parse3("x_1^4294967295x_1"),
        Err("exponent too large")
    );
}

#[test]
fn var_and_pow_report_what_is_missing() {
    let mut parser = Parser::new(vec![Token::Num(3), Token::EOF]);
    assert_eq!(parser.var(), Err("not variable"));
    assert_eq!(parser.pow(), Err("not pow"));
    assert_eq!(parser.now, 0);
    let mut parser = Parser::new(vec![
        Token::Var('x'),
        Token::Symb('_'),
        Token::Num(2),
        Token::Symb('^'),
        Token::Num(7),
        Token::EOF,
    ]);
    assert_eq!(parser.var(), Ok((2, 7)));
    assert_eq!(parser.now, 5);
}

#[test]
fn parser_steps_move_the_position() {
    let mut parser = Parser::new(vec![Token::Num(3), Token::Symb('+'), Token::EOF]);
    assert_eq!(parser.read(), Some(Token::Num(3)));
    assert_eq!(parser.number(), Some(3));
    assert!(!parser.at_variable());
    parser.next();
    assert_eq!(parser.now, 1);
    assert!(parser.at_symbol('+'));
    assert!(!parser.at_symbol('-'));
    let failed: Result<u32, &'static str> = parser.err(0, "back");
    assert_eq!(failed, Err("back"));
    assert_eq!(parser.now, 0);
    parser.now = 3;
    assert_eq!(parser.read(), None);
}

#[test]
fn term_reads_coefficient_and_factors() {
    let mut lexer = Lexer::new("7x_2^3x_1 + 9");
    let mut parser = Parser::new(lexer.lex().unwrap());
    let term = parser.term::<P, 3>().unwrap();
    assert_eq!(term.coef.value(), 2);
    assert_eq!(term.degree, [1, 3, 0]);
    assert_eq!(parser.read(), Some(Token::Symb('+')));
    parser.next();
    let constant = parser.term::<P, 3>().unwrap();
    assert_eq!(constant.coef.value(), 4);
    assert_eq!(constant.degree, [0, 0, 0]);
    assert_eq!(parser.term::<P, 3>(), Err("empty term"));
}

#[test]
fn mono_and_poly_stop_at_what_they_do_not_know() {
    let mut parser = Parser::new(Lexer::new("x_1x_3^2,x_2").lex().unwrap());
    assert_eq!(parser.mono::<3>(), Ok([1, 0, 2]));
    assert_eq!(parser.now, 8);
    let mut parser = Parser::new(Lexer::new("x_1 + 3 x_2,x_2").lex().unwrap());
    let poly = parser.poly::<P, 3>().unwrap();
    assert_eq!(
        poly,
        Polynomial::new(vec![
            Monomial::new(Fp::new(1), [1, 0, 0]),
            Monomial::new(Fp::new(3), [0, 1, 0]),
        ])
    );
    assert_eq!(parser.read(), Some(Token::Symb(',')));
    assert!(parser::all_zero(&[0u32, 0, 0]));
    assert!(!parser::all_zero(&[0u32, 1, 0]));
}

#[test]
fn parse_ignores_what_follows_the_list() {
    let mut parser = Parser::new(vec![
        Token::Num(2),
        Token::Num(3),
        Token::EOF,
    ]);
    let polys = parser.parse::<P, 3>().unwrap();
    assert_eq!(polys.len(), 1);
    assert_eq!(polys[0].monos[0].coef.value(), 2);
    assert_eq!(parser.now, 1);
}
