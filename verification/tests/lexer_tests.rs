use riscv_compiler::lexer::{Lexer, Span, TokenType};

#[test]
fn test_lexer_basic() {
    let mut lex = Lexer::new("def aa() -> = 1 + s_s");
    let def = lex.next_token();
    assert_eq!(def.token_type, TokenType::Def, "Expected: `Def`");

    let aa_id = lex.next_token();
    assert_eq!(
        aa_id.token_type,
        TokenType::Identifier("aa".into()),
        "Expected: `Identifier`"
    );
    let l_param = lex.next_token();
    assert_eq!(l_param.token_type, TokenType::LParam, "Expected: `(`");

    let r_param = lex.next_token();
    assert_eq!(r_param.token_type, TokenType::RParam, "Expected: `)`");

    let arrow = lex.next_token();
    assert_eq!(arrow.token_type, TokenType::Arrow, "Expected: `->`");

    let eq = lex.next_token();
    assert_eq!(eq.token_type, TokenType::Eq, "Expected: `=`");

    let num = lex.next_token();
    assert_eq!(num.token_type, TokenType::Integer(1), "Expected: `Integer`");

    let plus = lex.next_token();
    assert_eq!(plus.token_type, TokenType::Plus, "Expected: `Plus`");

    let var_id = lex.next_token();
    assert_eq!(
        var_id.token_type,
        TokenType::Identifier("s_s".into()),
        "Expected: `Identifier`"
    );
}

#[test]
fn lexer_reads_every_token_of_a_definition() {
    let mut lex = Lexer::new("def aa() -> = 1 + s_s");
    assert!(lex.ready());
    let tokens = lex.scan_all().unwrap();
    let kinds: Vec<TokenType> = tokens.iter().map(|t| t.token_type.clone()).collect();
    assert_eq!(
        kinds,
        vec![
            TokenType::Def,
            TokenType::Identifier("aa".to_string()),
            TokenType::LParam,
            TokenType::RParam,
            TokenType::Arrow,
            TokenType::Eq,
            TokenType::Integer(1),
            TokenType::Plus,
            TokenType::Identifier("s_s".to_string()),
        ]
    );
    assert_eq!(tokens[0].span, Span::new(0, 3));
    assert_eq!(tokens[4].span, Span::new(11, 13));
    assert_eq!(tokens[8].span, Span::new(18, 21));
}
