use calculator::lexer::{Lexer, Token};

fn tokens_of(text: &str) -> Vec<Token> {
    let mut lexer = Lexer::new(text.chars().collect());
    let mut tokens = Vec::new();
    while let Some(token) = lexer.tokenize() {
        tokens.push(token);
    }
    tokens
}

#[test]
fn lexer_test() {
    let mut lexer = Lexer::new("14 + 3".chars().collect());
    assert_eq!(lexer.tokenize(), Some(Token::Number(14)));
    assert_eq!(lexer.tokenize(), Some(Token::Plus));
    assert_eq!(lexer.tokenize(), Some(Token::Number(3)));
    assert_eq!(lexer.tokenize(), None);
}

#[test]
fn digits_alone_are_one_number() {
    assert_eq!(tokens_of("7"), vec![Token::Number(7)]);
    assert_eq!(tokens_of("1234567890"), vec![Token::Number(1234567890)]);
    assert_eq!(tokens_of("0"), vec![Token::Number(0)]);
}

#[test]
fn leading_zeros_do_not_count() {
    assert_eq!(tokens_of("007"), vec![Token::Number(7)]);
    assert_eq!(
        tokens_of("00000000000000000000000000000000042"),
        vec![Token::Number(42)]
    );
}

#[test]
fn largest_number_is_read() {
    assert_eq!(
        tokens_of("9223372036854775807"),
        vec![Token::Number(i64::MAX)]
    );
}

#[test]
fn accepts_numbers_that_fit() {
    let fits = |text: &str| Lexer::accepts(&text.chars().collect());
    assert!(fits(""));
    assert!(fits("1 + 2"));
    assert!(fits("9223372036854775807"));
    assert!(fits("0009223372036854775807"));
    assert!(fits("9223372036854775807 9223372036854775807"));
    assert!(fits("abc"));
}

#[test]
fn rejects_numbers_that_do_not_fit() {
    let fits = |text: &str| Lexer::accepts(&text.chars().collect());
    assert!(!fits("9223372036854775808"));
    assert!(!fits("1 + 9223372036854775808"));
    assert!(!fits("-9223372036854775808"));
    assert!(!fits("99999999999999999999999999"));
    assert!(!fits("18446744073709551616"));
    assert!(!fits("(92233720368547758070)"));
}

#[test]
fn each_symbol_is_its_token() {
    assert_eq!(tokens_of("+"), vec![Token::Plus]);
    assert_eq!(tokens_of("-"), vec![Token::Minus]);
    assert_eq!(tokens_of("*"), vec![Token::Asterisk]);
    assert_eq!(tokens_of("/"), vec![Token::Slash]);
    assert_eq!(tokens_of("("), vec![Token::Lparen]);
    assert_eq!(tokens_of(")"), vec![Token::Rparen]);
}

#[test]
fn lone_symbol_among_white_space() {
    let mut lexer = Lexer::new("  \t( \n".chars().collect());
    assert_eq!(lexer.tokenize(), Some(Token::Lparen));
    assert_eq!(lexer.tokenize(), None);
    assert_eq!(tokens_of(" * "), vec![Token::Asterisk]);
    assert_eq!(tokens_of("\r\n/"), vec![Token::Slash]);
    assert_eq!(tokens_of("-   "), vec![Token::Minus]);
}

#[test]
fn unknown_characters_are_passed_over() {
    assert_eq!(tokens_of("a1b"), vec![Token::Number(1)]);
    assert_eq!(
        tokens_of("1a2"),
        vec![Token::Number(1), Token::Number(2)]
    );
    assert_eq!(tokens_of("x = y ^ 2"), vec![Token::Number(2)]);
    assert_eq!(tokens_of("é+ü"), vec![Token::Plus]);
    assert_eq!(tokens_of("hello"), vec![]);
}

#[test]
fn adjacent_tokens_need_no_space() {
    assert_eq!(
        tokens_of("12+(3*45)/6-7"),
        vec![
            Token::Number(12),
            Token::Plus,
            Token::Lparen,
            Token::Number(3),
            Token::Asterisk,
            Token::Number(45),
            Token::Rparen,
            Token::Slash,
            Token::Number(6),
            Token::Minus,
            Token::Number(7),
        ]
    );
}

#[test]
fn empty_text_has_no_token() {
    let mut lexer = Lexer::new(Vec::new());
    assert_eq!(lexer.tokenize(), None);
    assert_eq!(lexer.tokenize(), None);
}

#[test]
fn end_of_input_is_stable() {
    let mut lexer = Lexer::new("5  ".chars().collect());
    assert_eq!(lexer.tokenize(), Some(Token::Number(5)));
    for _ in 0..100 {
        assert_eq!(lexer.tokenize(), None);
        assert_eq!(lexer.curr(0), None);
    }
}

#[test]
fn cursor_looks_ahead() {
    let lexer = Lexer::new("ab".chars().collect());
    assert_eq!(lexer.curr(0), Some(&'a'));
    assert_eq!(lexer.curr(1), Some(&'b'));
    assert_eq!(lexer.curr(2), None);
    assert_eq!(lexer.curr(usize::MAX), None);
}

#[test]
fn cursor_moves_one_place_and_stops_at_the_end() {
    let mut lexer = Lexer::new("ab".chars().collect());
    lexer.next();
    assert_eq!(lexer.curr(0), Some(&'b'));
    assert_eq!(lexer.curr(1), None);
    lexer.next();
    assert_eq!(lexer.curr(0), None);
    lexer.next();
    lexer.next();
    assert_eq!(lexer.curr(0), None);
    assert_eq!(lexer.tokenize(), None);
}

#[test]
fn moving_into_a_number_reads_its_tail() {
    let mut lexer = Lexer::new("1234+".chars().collect());
    lexer.next();
    lexer.next();
    assert_eq!(lexer.tokenize(), Some(Token::Number(34)));
    assert_eq!(lexer.tokenize(), Some(Token::Plus));
    assert_eq!(lexer.tokenize(), None);
}

#[test]
fn digits_are_told_apart() {
    for c in '0'..='9' {
        assert!(Lexer::is_number(c));
    }
    assert!(!Lexer::is_number('/'));
    assert!(!Lexer::is_number(':'));
    assert!(!Lexer::is_number('a'));
    assert!(!Lexer::is_number(' '));
    assert!(!Lexer::is_number('٣'));
}

#[test]
fn digits_have_their_value() {
    assert_eq!(Lexer::to_number('0'), 0);
    assert_eq!(Lexer::to_number('7'), 7);
    assert_eq!(Lexer::to_number('9'), 9);
    assert_eq!(Lexer::to_number('a'), 49);
    assert_eq!(Lexer::to_number(' '), -16);
}
