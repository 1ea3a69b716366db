use lox_rs::scanner::Scanner;
use lox_rs::token::{Literal, Token, TokenType};

fn scan(src: &str) -> (Vec<Token>, Vec<(u32, String)>) {
    let mut scanner = Scanner::new(src);
    let tokens = scanner.scan_tokens();
    let diags = scanner
        .diagnostics()
        .iter()
        .map(|d| (d.line, d.message.clone()))
        .collect();
    (tokens, diags)
}

#[test]
fn single_punctuation_tokens() {
    let cases: Vec<(&str, TokenType)> = vec![
        ("(", TokenType::LeftParen),
        (")", TokenType::RightParen),
        ("{", TokenType::LeftBrace),
        ("}", TokenType::RightBrace),
        (",", TokenType::Comma),
        (".", TokenType::Dot),
        ("-", TokenType::Minus),
        ("+", TokenType::Plus),
        (";", TokenType::Semicolon),
        ("*", TokenType::Star),
    ];
    for (src, kind) in cases {
        let (tokens, diags) = scan(src);
        assert_eq!(tokens.len(), 2, "input {:?}", src);
        assert_eq!(tokens[0].kind, kind, "input {:?}", src);
        assert_eq!(tokens[0].lexeme, src, "input {:?}", src);
        assert_eq!(tokens[0].literal, None, "input {:?}", src);
        assert_eq!(tokens[0].line, 1, "input {:?}", src);
        assert_eq!(tokens[1].kind, TokenType::EOF, "input {:?}", src);
        assert!(diags.is_empty(), "input {:?}", src);
    }
}

#[test]
fn punctuation_mapping_is_a_bijection() {
    let inputs = "(){},.-+;*";
    let mut kinds: Vec<TokenType> = Vec::new();
    for c in inputs.chars() {
        let (tokens, _) = scan(&c.to_string());
        assert!(!kinds.contains(&tokens[0].kind), "duplicate kind for {:?}", c);
        kinds.push(tokens[0].kind);
    }
}

#[test]
fn bang_equal_is_one_token() {
    let (tokens, diags) = scan("!=");
    assert_eq!(tokens.len(), 2);
    assert_eq!(tokens[0].kind, TokenType::BangEqual);
    assert_eq!(tokens[0].lexeme, "!=");
    assert_eq!(tokens[1].kind, TokenType::EOF);
    assert!(diags.is_empty());
}

#[test]
fn operators_single_and_double() {
    let cases: Vec<(&str, TokenType)> = vec![
        ("!", TokenType::Bang),
        ("=", TokenType::Equal),
        ("==", TokenType::EqualEqual),
        ("<", TokenType::Less),
        ("<=", TokenType::LessEqual),
        (">", TokenType::Greater),
        (">=", TokenType::GreaterEqual),
        ("/", TokenType::Slash),
    ];
    for (src, kind) in cases {
        let (tokens, diags) = scan(src);
        assert_eq!(tokens.len(), 2, "input {:?}", src);
        assert_eq!(tokens[0].kind, kind, "input {:?}", src);
        assert_eq!(tokens[0].lexeme, src, "input {:?}", src);
        assert!(diags.is_empty(), "input {:?}", src);
    }
}

#[test]
fn comment_then_number() {
    let (tokens, diags) = scan("// comment\n123");
    assert_eq!(tokens.len(), 2);
    assert_eq!(tokens[0].kind, TokenType::Number);
    assert_eq!(tokens[0].lexeme, "123");
    assert_eq!(tokens[0].line, 2);
    match &tokens[0].literal {
        Some(Literal::Number(text)) => assert_eq!(text.parse::<f64>().unwrap(), 123.0),
        other => panic!("expected a number literal, got {:?}", other),
    }
    assert_eq!(tokens[1].kind, TokenType::EOF);
    assert!(diags.is_empty());
}

#[test]
fn comment_reaching_end_of_input() {
    let (tokens, diags) = scan("// just a comment");
    assert_eq!(tokens.len(), 1);
    assert_eq!(tokens[0].kind, TokenType::EOF);
    assert!(diags.is_empty());
}

#[test]
fn number_with_fraction() {
    let (tokens, diags) = scan("3.14");
    assert_eq!(tokens.len(), 2);
    assert_eq!(tokens[0].kind, TokenType::Number);
    assert_eq!(tokens[0].lexeme, "3.14");
    match &tokens[0].literal {
        Some(Literal::Number(text)) => assert_eq!(text.parse::<f64>().unwrap(), 3.14),
        other => panic!("expected a number literal, got {:?}", other),
    }
    assert!(diags.is_empty());
}

#[test]
fn number_with_trailing_dot() {
    let (tokens, diags) = scan("3.");
    assert_eq!(tokens.len(), 3);
    assert_eq!(tokens[0].kind, TokenType::Number);
    assert_eq!(tokens[0].lexeme, "3");
    match &tokens[0].literal {
        Some(Literal::Number(text)) => assert_eq!(text.parse::<f64>().unwrap(), 3.0),
        other => panic!("expected a number literal, got {:?}", other),
    }
    assert_eq!(tokens[1].kind, TokenType::Dot);
    assert_eq!(tokens[1].lexeme, ".");
    assert_eq!(tokens[2].kind, TokenType::EOF);
    assert!(diags.is_empty());
}

#[test]
fn fraction_digit_at_end_of_input() {
    let (tokens, diags) = scan("3.5");
    assert_eq!(tokens.len(), 2);
    assert_eq!(tokens[0].kind, TokenType::Number);
    assert_eq!(tokens[0].lexeme, "3.5");
    assert_eq!(tokens[1].kind, TokenType::EOF);
    assert!(diags.is_empty());
}

#[test]
fn number_dot_number() {
    let (tokens, _) = scan("123.456.7");
    assert_eq!(tokens.len(), 4);
    assert_eq!(tokens[0].kind, TokenType::Number);
    assert_eq!(tokens[0].lexeme, "123.456");
    assert_eq!(tokens[1].kind, TokenType::Dot);
    assert_eq!(tokens[2].kind, TokenType::Number);
    assert_eq!(tokens[2].lexeme, "7");
    assert_eq!(tokens[3].kind, TokenType::EOF);
}

#[test]
fn unterminated_string() {
    let (tokens, diags) = scan("\"abc");
    assert_eq!(tokens.len(), 1);
    assert_eq!(tokens[0].kind, TokenType::EOF);
    assert_eq!(diags.len(), 1);
    assert_eq!(diags[0].0, 1);
    assert_eq!(diags[0].1, "Unterminated string.");
}

#[test]
fn string_literal_excludes_quotes() {
    let (tokens, diags) = scan("\"hi\"");
    assert_eq!(tokens.len(), 2);
    assert_eq!(tokens[0].kind, TokenType::String);
    assert_eq!(tokens[0].lexeme, "\"hi\"");
    assert_eq!(
        tokens[0].literal,
        Some(Literal::String(String::from("hi")))
    );
    assert_eq!(tokens[0].line, 1);
    assert!(diags.is_empty());
}

#[test]
fn string_spanning_lines() {
    let (tokens, diags) = scan("\"a\nb\"");
    assert_eq!(tokens.len(), 2);
    assert_eq!(tokens[0].kind, TokenType::String);
    assert_eq!(
        tokens[0].literal,
        Some(Literal::String(String::from("a\nb")))
    );
    assert_eq!(tokens[0].line, 1, "a token is reported at its first character's line");
    assert_eq!(tokens[1].kind, TokenType::EOF);
    assert_eq!(tokens[1].line, 2);
    assert!(diags.is_empty());
}

#[test]
fn keyword_for() {
    let (tokens, diags) = scan("for");
    assert_eq!(tokens.len(), 2);
    assert_eq!(tokens[0].kind, TokenType::For);
    assert_eq!(tokens[0].lexeme, "for");
    assert_eq!(tokens[0].literal, None);
    assert_eq!(tokens[1].kind, TokenType::EOF);
    assert!(diags.is_empty());
}

#[test]
fn keyword_prefix_is_an_identifier() {
    let (tokens, _) = scan("forx");
    assert_eq!(tokens.len(), 2);
    assert_eq!(tokens[0].kind, TokenType::Identifier);
    assert_eq!(
        tokens[0].literal,
        Some(Literal::Identifier(String::from("forx")))
    );
}

#[test]
fn all_keywords() {
    let cases: Vec<(&str, TokenType)> = vec![
        ("and", TokenType::And),
        ("class", TokenType::Class),
        ("else", TokenType::Else),
        ("false", TokenType::False),
        ("for", TokenType::For),
        ("Fun", TokenType::Fun),
        ("if", TokenType::If),
        ("nil", TokenType::Nil),
        ("or", TokenType::Or),
        ("print", TokenType::Print),
        ("return", TokenType::Return),
        ("super", TokenType::Super),
        ("this", TokenType::This),
        ("true", TokenType::True),
        ("var", TokenType::Var),
        ("while", TokenType::While),
    ];
    for (src, kind) in cases {
        let (tokens, _) = scan(src);
        assert_eq!(tokens.len(), 2, "input {:?}", src);
        assert_eq!(tokens[0].kind, kind, "input {:?}", src);
        assert_eq!(tokens[0].literal, None, "input {:?}", src);
    }
}

#[test]
fn keyword_lookup_is_case_sensitive() {
    let (tokens, _) = scan("fun");
    assert_eq!(tokens[0].kind, TokenType::Identifier);
    let (tokens, _) = scan("For");
    assert_eq!(tokens[0].kind, TokenType::Identifier);
}

#[test]
fn unexpected_character() {
    let (tokens, diags) = scan("@");
    assert_eq!(tokens.len(), 1);
    assert_eq!(tokens[0].kind, TokenType::EOF);
    assert_eq!(diags.len(), 1);
    assert_eq!(diags[0].0, 1);
    assert_eq!(diags[0].1, "Unexpected characters.");
}

#[test]
fn scanning_resumes_after_a_diagnostic() {
    let (tokens, diags) = scan("@+");
    assert_eq!(tokens.len(), 2);
    assert_eq!(tokens[0].kind, TokenType::Plus);
    assert_eq!(diags.len(), 1);
}

#[test]
fn whitespace_emits_nothing() {
    let (tokens, diags) = scan(" \t\r");
    assert_eq!(tokens.len(), 1);
    assert_eq!(tokens[0].kind, TokenType::EOF);
    assert_eq!(tokens[0].line, 1);
    assert!(diags.is_empty());
}

#[test]
fn newlines_advance_the_line_counter() {
    let (tokens, _) = scan("\n\n+");
    assert_eq!(tokens.len(), 2);
    assert_eq!(tokens[0].kind, TokenType::Plus);
    assert_eq!(tokens[0].line, 3);
    assert_eq!(tokens[1].line, 3);
}

#[test]
fn empty_input_yields_only_eof() {
    let (tokens, diags) = scan("");
    assert_eq!(tokens.len(), 1);
    assert_eq!(tokens[0].kind, TokenType::EOF);
    assert_eq!(tokens[0].lexeme, "");
    assert_eq!(tokens[0].literal, None);
    assert_eq!(tokens[0].line, 1);
    assert!(diags.is_empty());
}

#[test]
fn eof_is_always_last_and_unique() {
    let inputs = vec![
        "",
        "(",
        "1 + 2",
        "\"abc",
        "@#$",
        "// comment",
        "var x = 10;\nprint x;",
    ];
    for src in inputs {
        let (tokens, _) = scan(src);
        assert!(!tokens.is_empty(), "input {:?}", src);
        assert_eq!(
            tokens.last().unwrap().kind,
            TokenType::EOF,
            "input {:?}",
            src
        );
        let eof_count = tokens
            .iter()
            .filter(|t| t.kind == TokenType::EOF)
            .count();
        assert_eq!(eof_count, 1, "input {:?}", src);
    }
}

#[test]
fn scanning_twice_is_identical() {
    let src = "var pi = 3.14; // circle\nif (pi >= 3) { print \"big\"; } @";
    let (tokens1, diags1) = scan(src);
    let (tokens2, diags2) = scan(src);
    assert_eq!(tokens1, tokens2);
    assert_eq!(diags1, diags2);
}

#[test]
fn identifier_with_non_ascii_letters() {
    let (tokens, diags) = scan("pingüino");
    assert_eq!(tokens.len(), 2);
    assert_eq!(tokens[0].kind, TokenType::Identifier);
    assert_eq!(tokens[0].lexeme, "pingüino");
    assert_eq!(
        tokens[0].literal,
        Some(Literal::Identifier(String::from("pingüino")))
    );
    assert!(diags.is_empty());
}

#[test]
fn mixed_statement() {
    let (tokens, diags) = scan("var answer = 42;");
    let kinds: Vec<TokenType> = tokens.iter().map(|t| t.kind).collect();
    assert_eq!(
        kinds,
        vec![
            TokenType::Var,
            TokenType::Identifier,
            TokenType::Equal,
            TokenType::Number,
            TokenType::Semicolon,
            TokenType::EOF,
        ]
    );
    assert!(diags.is_empty());
}
