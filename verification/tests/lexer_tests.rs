use xbf::common::try_index;
use xbf::lexer::Lexer;
use xbf::lexer::Token;
use xbf::lexer::TokenType;

fn lex(source: &str) -> Vec<Token> {
    Lexer::new(source).lex()
}

fn types(tokens: &[Token]) -> Vec<TokenType> {
    tokens.iter().map(|t| t.get_typ().clone()).collect()
}

/// Re-expands a token back into its repeated raw characters.
fn expand(tokens: &[Token]) -> String {
    let mut out = String::new();
    for t in tokens {
        let (ch, n) = match *t.get_typ() {
            TokenType::Inc(n) => ('+', n),
            TokenType::Dec(n) => ('-', n),
            TokenType::Left(n) => ('<', n),
            TokenType::Right(n) => ('>', n),
            TokenType::BracketOpen => ('[', 1),
            TokenType::BracketClose => (']', 1),
            TokenType::PutChar => ('.', 1),
            TokenType::GetChar => (',', 1),
        };
        for _ in 0..n {
            out.push(ch);
        }
    }
    out
}

#[test]
fn run_of_identical_characters_is_one_token() {
    let tokens = lex("+++++");
    assert_eq!(types(&tokens), vec![TokenType::Inc(5)]);
    assert_eq!(tokens[0].col, 1);
    assert_eq!(tokens[0].ln, 1);

    let tokens = lex(">>>");
    assert_eq!(types(&tokens), vec![TokenType::Right(3)]);
}

#[test]
fn intervening_byte_splits_a_run() {
    let tokens = lex("++a++");
    assert_eq!(types(&tokens), vec![TokenType::Inc(2), TokenType::Inc(2)]);

    let tokens = lex("--<--");
    assert_eq!(
        types(&tokens),
        vec![TokenType::Dec(2), TokenType::Left(1), TokenType::Dec(2)]
    );
}

#[test]
fn every_command_character_lexes() {
    let tokens = lex("><+-.,[]");
    assert_eq!(
        types(&tokens),
        vec![
            TokenType::Right(1),
            TokenType::Left(1),
            TokenType::Inc(1),
            TokenType::Dec(1),
            TokenType::PutChar,
            TokenType::GetChar,
            TokenType::BracketOpen,
            TokenType::BracketClose,
        ]
    );
}

#[test]
fn comments_are_skipped() {
    assert!(lex("hello world!").is_empty());
    assert!(lex("").is_empty());
}

#[test]
fn positions_track_lines_and_columns() {
    let tokens = lex("+\n+");
    assert_eq!(types(&tokens), vec![TokenType::Inc(1), TokenType::Inc(1)]);
    assert_eq!((tokens[0].col, tokens[0].ln), (1, 1));
    assert_eq!((tokens[1].col, tokens[1].ln), (1, 2));
}

#[test]
fn token_err_renders_location() {
    let t = Token::new(TokenType::Inc(1), 34, 12);
    assert_eq!(t.err(), "Error on line 12, col 34:");

    let t = Token::new(TokenType::PutChar, 5, 120);
    assert_eq!(t.err(), "Error on line 120, col 5:");

    let t = Token::new(TokenType::PutChar, 1000, 9);
    assert_eq!(t.err(), "Error on line 9, col 1000:");
}

#[test]
fn reexpanding_and_relexing_reproduces_tokens() {
    for source in ["++[--", "+++++", ">>.,<<[-]", "[->+<]"] {
        let tokens = lex(source);
        let relexed = lex(&expand(&tokens));
        assert_eq!(types(&tokens), types(&relexed));
    }
}

#[test]
fn try_index_is_bounds_checked() {
    let v = vec![10u8, 20u8];
    assert_eq!(try_index(&v, 0), Some(&10u8));
    assert_eq!(try_index(&v, 1), Some(&20u8));
    assert_eq!(try_index(&v, 2), None);
}
