use lambda_calc::lexer::{LexError, Lexer, Token};

fn tokens_of(text: &str) -> Result<Vec<Token>, LexError> {
    Lexer::new(String::from(text)).lex()
}

#[test]
fn symbols_and_atoms_are_one_token_each() {
    assert_eq!(
        tokens_of("λx.(x y)"),
        Ok(vec![
            Token::Lambda,
            Token::Atom(String::from("x")),
            Token::Dot,
            Token::LParen,
            Token::Atom(String::from("x")),
            Token::Atom(String::from("y")),
            Token::RParen,
            Token::EOF,
        ])
    );
}

#[test]
fn each_letter_is_an_atom_of_its_own() {
    assert_eq!(
        tokens_of("ab"),
        Ok(vec![Token::Atom(String::from("a")), Token::Atom(String::from("b")), Token::EOF])
    );
}

#[test]
fn whitespace_is_dropped() {
    assert_eq!(
        tokens_of("  x \t\n y "),
        Ok(vec![Token::Atom(String::from("x")), Token::Atom(String::from("y")), Token::EOF])
    );
}

#[test]
fn backslash_lexes_as_lambda() {
    assert_eq!(tokens_of("\\"), Ok(vec![Token::Lambda, Token::EOF]));
}

#[test]
fn nul_character_is_an_end_marker() {
    assert_eq!(
        tokens_of("x\0y"),
        Ok(vec![
            Token::Atom(String::from("x")),
            Token::EOF,
            Token::Atom(String::from("y")),
            Token::EOF,
        ])
    );
}

#[test]
fn empty_text_is_only_the_end_marker() {
    assert_eq!(tokens_of(""), Ok(vec![Token::EOF]));
}

#[test]
fn non_ascii_letters_are_atoms() {
    assert_eq!(tokens_of("é"), Ok(vec![Token::Atom(String::from("é")), Token::EOF]));
}

#[test]
fn digit_is_malformed() {
    assert_eq!(tokens_of("x1"), Err(LexError::MalformedIdentifier { position: 1, found: '1' }));
}

#[test]
fn first_malformed_character_is_reported() {
    assert_eq!(
        tokens_of("a b + c - d"),
        Err(LexError::MalformedIdentifier { position: 2, found: '+' })
    );
}

#[test]
fn lexer_stops_at_the_malformed_character() {
    let mut lexer = Lexer::new(String::from("ab+"));
    assert_eq!(lexer.lex(), Err(LexError::MalformedIdentifier { position: 2, found: '+' }));
    assert_eq!(lexer.lex(), Err(LexError::MalformedIdentifier { position: 2, found: '+' }));
}

#[test]
fn exhausted_lexer_gives_only_the_end_marker() {
    let mut lexer = Lexer::new(String::from("x"));
    assert_eq!(lexer.lex(), Ok(vec![Token::Atom(String::from("x")), Token::EOF]));
    assert_eq!(lexer.lex(), Ok(vec![Token::EOF]));
}

#[test]
fn token_of_char_goes_by_the_flag() {
    assert_eq!(Token::of_char('x', true), Some(Token::Atom(String::from("x"))));
    assert_eq!(Token::of_char('x', false), None);
    assert_eq!(Token::of_char('λ', false), Some(Token::Lambda));
    assert_eq!(Token::of_char('.', true), Some(Token::Dot));
    assert_eq!(Token::of_char('(', false), Some(Token::LParen));
    assert_eq!(Token::of_char(')', false), Some(Token::RParen));
    assert_eq!(Token::of_char('\0', false), Some(Token::EOF));
}

#[test]
fn token_equality_compares_names() {
    assert_eq!(Token::Atom(String::from("x")), Token::Atom(String::from("x")));
    assert_ne!(Token::Atom(String::from("x")), Token::Atom(String::from("y")));
    assert_ne!(Token::Lambda, Token::Dot);
    assert_ne!(Token::EOF, Token::Atom(String::from("x")));
}
