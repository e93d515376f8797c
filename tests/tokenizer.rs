use computorv1::number::{Decimal, MAX_LITERAL_UNITS};
use computorv1::tokenizer::{Token, TokenizeError, Tokenizer};

fn get_tokens(input: &str) -> Vec<Token> {
    let tokenizer = Tokenizer::new();
    tokenizer.tokenize(input).unwrap()
}

#[test]
fn test_operators() {
    let mut tokens = get_tokens("+-*/%^=").into_iter();
    assert_eq!(Some(Token::Operator('+')), tokens.next());
    assert_eq!(Some(Token::Operator('-')), tokens.next());
    assert_eq!(Some(Token::Operator('*')), tokens.next());
    assert_eq!(Some(Token::Operator('/')), tokens.next());
    assert_eq!(Some(Token::Operator('%')), tokens.next());
    assert_eq!(Some(Token::Operator('^')), tokens.next());
    assert_eq!(Some(Token::Operator('=')), tokens.next());
    assert_eq!(None, tokens.next());
}

#[test]
fn test_numbers() {
    let mut tokens = get_tokens("0.0 42.0").into_iter();
    assert_eq!(Some(Token::Number(Decimal::from_whole(0))), tokens.next());
    assert_eq!(Some(Token::Number(Decimal::from_whole(42))), tokens.next());
    assert_eq!(None, tokens.next());
}

#[test]
fn fractional_number_is_exact() {
    let tokens = get_tokens("9.3 0.000000001 7.");
    assert_eq!(
        tokens,
        vec![
            Token::Number(Decimal::from_units(9_300_000_000)),
            Token::Number(Decimal::from_units(1)),
            Token::Number(Decimal::from_whole(7)),
        ]
    );
}

#[test]
fn identifiers_keep_letters_and_digits() {
    let tokens = get_tokens("variable Function(x) x2");
    assert_eq!(
        tokens,
        vec![
            Token::Identifier("variable".to_owned()),
            Token::Identifier("Function".to_owned()),
            Token::Parenthesis('('),
            Token::Identifier("x".to_owned()),
            Token::Parenthesis(')'),
            Token::Identifier("x2".to_owned()),
        ]
    );
}

#[test]
fn whitespace_is_skipped() {
    assert_eq!(get_tokens("5*X^0=4"), get_tokens(" 5 *\tX ^ 0\n= 4 "));
}

#[test]
fn empty_text_has_no_tokens() {
    assert_eq!(get_tokens(""), Vec::<Token>::new());
}

#[test]
fn unexpected_character_is_reported() {
    let tokenizer = Tokenizer::new();
    assert_eq!(tokenizer.tokenize("5 * X $ 2"), Err(TokenizeError::UnexpectedCharacter('$')));
    assert_eq!(tokenizer.tokenize("[1]"), Err(TokenizeError::UnexpectedCharacter('[')));
}

#[test]
fn second_point_ends_the_number() {
    let tokenizer = Tokenizer::new();
    assert_eq!(tokenizer.tokenize("1.5.2"), Err(TokenizeError::UnexpectedCharacter('.')));
}

#[test]
fn long_fraction_rounds_at_the_ninth_digit() {
    assert_eq!(get_tokens("1.0000000001"), vec![Token::Number(Decimal::from_units(1_000_000_000))]);
    assert_eq!(get_tokens("0.0000000005"), vec![Token::Number(Decimal::from_units(1))]);
    assert_eq!(get_tokens("0.99999999999"), vec![Token::Number(Decimal::from_whole(1))]);
}

#[test]
fn large_number_is_held_at_the_limit() {
    assert_eq!(
        get_tokens("1000000000000000000000000"),
        vec![Token::Number(Decimal::from_units(MAX_LITERAL_UNITS))]
    );
    assert_eq!(
        get_tokens("1000000000000000000000"),
        vec![Token::Number(Decimal::from_units(MAX_LITERAL_UNITS))]
    );
}

#[test]
fn unicode_white_space_is_skipped() {
    assert_eq!(get_tokens("5\u{a0}*\u{2003}X\u{3000}=\u{85}4"), get_tokens("5*X=4"));
}
