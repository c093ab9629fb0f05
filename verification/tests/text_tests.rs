use riscv_compiler::decimal::{bool_to_string, i64_to_string, parse_i64, u64_to_string};
use riscv_compiler::lexer::{Lexer, Span, TokenType};
use riscv_compiler::names::{NameSet, StrMap};

fn t(text: &str) -> String {
    text.to_string()
}

#[test]
fn integers_are_written_in_decimal() {
    assert_eq!(i64_to_string(0), "0");
    assert_eq!(i64_to_string(7), "7");
    assert_eq!(i64_to_string(-12), "-12");
    assert_eq!(i64_to_string(i64::MAX), "9223372036854775807");
    assert_eq!(i64_to_string(i64::MIN), "-9223372036854775808");
    assert_eq!(u64_to_string(u64::MAX), "18446744073709551615");
    assert_eq!(bool_to_string(true), "true");
    assert_eq!(bool_to_string(false), "false");
}

#[test]
fn literals_are_read_with_an_optional_sign() {
    assert_eq!(parse_i64(&t("0")), Some(0));
    assert_eq!(parse_i64(&t("42")), Some(42));
    assert_eq!(parse_i64(&t("+42")), Some(42));
    assert_eq!(parse_i64(&t("-42")), Some(-42));
    assert_eq!(parse_i64(&t("-0")), Some(0));
    assert_eq!(parse_i64(&t("0000000000000000000000017")), Some(17));
    assert_eq!(parse_i64(&t("9223372036854775807")), Some(i64::MAX));
    assert_eq!(parse_i64(&t("-9223372036854775808")), Some(i64::MIN));
}

#[test]
fn what_is_no_literal_is_not_read() {
    for text in [
        "",
        "+",
        "-",
        "x",
        "1x",
        " 1",
        "1 ",
        "--1",
        "1.5",
        "9223372036854775808",
        "-9223372036854775809",
        "99999999999999999999999999999999999999999",
        "\u{661}",
        "1\u{e9}",
    ] {
        assert_eq!(parse_i64(&t(text)), None, "{:?}", text);
    }
}

#[test]
fn reading_what_was_written_gives_the_integer_again() {
    for value in [0, 1, -1, 10, -10, 123456789, i64::MAX, i64::MIN] {
        assert_eq!(parse_i64(&i64_to_string(value)), Some(value));
    }
}

#[test]
fn a_name_set_holds_every_name_once() {
    let mut set = NameSet::new();
    assert!(set.insert(t("a")));
    assert!(set.insert(t("b")));
    assert!(!set.insert(t("a")));
    assert_eq!(set.len(), 2);
    assert!(set.contains(&t("a")));
    assert!(!set.contains(&t("c")));
    assert!(set.remove(&t("a")));
    assert!(!set.remove(&t("a")));
    assert_eq!(set.items, vec![t("b")]);

    let mut other = NameSet::new();
    other.insert(t("b"));
    other.insert(t("c"));
    other.insert(t("d"));
    let mut except = NameSet::new();
    except.insert(t("d"));
    assert!(set.absorb_except(&other, &except));
    assert_eq!(set.items, vec![t("b"), t("c")]);
    assert!(set.absorb(&other));
    assert_eq!(set.items, vec![t("b"), t("c"), t("d")]);
    assert!(!set.absorb(&other));
    let copy = set.clone();
    assert_eq!(copy.items, set.items);
}

#[test]
fn a_map_keeps_the_order_in_which_keys_came() {
    let mut map: StrMap<usize> = StrMap::new();
    map.insert(t("one"), 1);
    map.insert(t("two"), 2);
    map.insert(t("one"), 11);
    assert_eq!(map.len(), 2);
    assert_eq!(map.keys, vec![t("one"), t("two")]);
    assert_eq!(map.vals, vec![11, 2]);
    assert_eq!(map.get(&t("two")), Some(&2));
    assert_eq!(map.get(&t("three")), None);
    assert_eq!(map.find(&t("two")), Some(1));
}

fn kinds(source: &str) -> Vec<TokenType> {
    let mut lex = Lexer::new(source);
    assert!(lex.ready());
    lex.scan_all().unwrap().into_iter().map(|tok| tok.token_type).collect()
}

#[test]
fn keywords_and_identifiers() {
    assert_eq!(
        kinds("def if elseif else let return type not with match from define _x a_b"),
        vec![
            TokenType::Def,
            TokenType::If,
            TokenType::ElseIf,
            TokenType::Else,
            TokenType::Let,
            TokenType::Return,
            TokenType::TypeRecord,
            TokenType::Not,
            TokenType::With,
            TokenType::Match,
            TokenType::From,
            TokenType::Identifier(t("define")),
            TokenType::Identifier(t("_x")),
            TokenType::Identifier(t("a_b")),
        ]
    );
}

#[test]
fn operators_and_punctuation() {
    assert_eq!(
        kinds("+ - * / % ^ ! = < > & | ( ) [ ] , : ~ @"),
        vec![
            TokenType::Plus,
            TokenType::Minus,
            TokenType::Star,
            TokenType::Divide,
            TokenType::Modulo,
            TokenType::Exp,
            TokenType::Excl,
            TokenType::Eq,
            TokenType::Lt,
            TokenType::Gt,
            TokenType::And,
            TokenType::Arm,
            TokenType::LParam,
            TokenType::RParam,
            TokenType::LBracket,
            TokenType::RBracket,
            TokenType::Comma,
            TokenType::Colon,
            TokenType::Undefined,
            TokenType::Undefined,
        ]
    );
    assert_eq!(
        kinds("<> -> && == >= <="),
        vec![
            TokenType::Neq,
            TokenType::Arrow,
            TokenType::AndAnd,
            TokenType::EqEq,
            TokenType::EqEq,
            TokenType::EqEq,
        ]
    );
}

#[test]
fn numbers_end_where_the_digits_end() {
    assert_eq!(
        kinds("12ab 007 9223372036854775807 9223372036854775808"),
        vec![
            TokenType::Integer(12),
            TokenType::Identifier(t("ab")),
            TokenType::Integer(7),
            TokenType::Integer(i64::MAX),
            TokenType::Undefined,
        ]
    );
}

#[test]
fn the_end_of_the_input_is_a_token_behind_space() {
    assert_eq!(kinds(""), Vec::<TokenType>::new());
    assert_eq!(kinds("a"), vec![TokenType::Identifier(t("a"))]);
    assert_eq!(kinds("a \n\t"), vec![TokenType::Identifier(t("a")), TokenType::Eof]);
    let mut lex = Lexer::new("  ");
    let tok = lex.next_token();
    assert_eq!(tok.token_type, TokenType::Eof);
    assert_eq!(tok.span, Span::new(2, 2));
    assert_eq!(lex.next_token().token_type, TokenType::Eof);
}

#[test]
fn spans_say_where_a_token_stands() {
    let mut lex = Lexer::new("ab  12 ->x");
    let word = lex.next_token();
    assert_eq!(word.span, Span::new(0, 2));
    let number = lex.next_token();
    assert_eq!(number.span, Span::new(4, 6));
    let arrow = lex.next_token();
    assert_eq!(arrow.token_type, TokenType::Arrow);
    assert_eq!(arrow.span, Span::new(9, 11));
    let x = lex.next_token();
    assert_eq!(x.span, Span::new(9, 10));
}

#[test]
fn text_that_cannot_be_read_is_told_apart() {
    assert!(Lexer::new("def f").ready());
    assert!(Lexer::new("x # comment").ready());
    assert!(!Lexer::new("caf\u{e9}").ready());
}

#[test]
fn a_comment_runs_to_the_end_of_its_line() {
    assert_eq!(
        kinds("a # b c\n# whole line\n  d#e"),
        vec![
            TokenType::Identifier(t("a")),
            TokenType::Identifier(t("d")),
            TokenType::Eof,
        ]
    );
    assert_eq!(kinds("#"), vec![TokenType::Eof]);
    let mut lex = Lexer::new("x #y\n12");
    assert_eq!(lex.next_token().span, Span::new(0, 1));
    let number = lex.next_token();
    assert_eq!(number.token_type, TokenType::Integer(12));
    assert_eq!(number.span, Span::new(5, 7));
}
