use expert_system::rule_parser::{evaluate_rule, tokenize_rule, Direction, EvalError, Token, TokenError};

fn eval(rule: &str) -> bool {
    evaluate_rule(rule).unwrap()
}

fn error_of(rule: &str) -> String {
    evaluate_rule(rule).unwrap_err().message()
}

#[test]
fn uni_directional() {
    assert_eq!(eval("1 => 0"), false);
    assert_eq!(eval("0 => 1"), true);
    assert_eq!(eval("1 => 1"), true);
    assert_eq!(eval("0 => 0"), true);
}

#[test]
fn bi_directional() {
    assert_eq!(eval("1 <=> 0"), false);
    assert_eq!(eval("0 <=> 1"), false);
    assert_eq!(eval("1 <=> 1"), true);
    assert_eq!(eval("0 <=> 0"), true);
}

#[test]
fn not() {
    assert_eq!(eval("!1 => 0"), true);
    assert_eq!(eval("!0 => 0"), false);

    assert_eq!(eval("1 => !1"), false);
    assert_eq!(eval("1 => !0"), true);
}

#[test]
fn and() {
    assert_eq!(eval("1 + 1 => 0"), false);
    assert_eq!(eval("1 + 0 => 0"), true);
    assert_eq!(eval("0 + 1 => 0"), true);
    assert_eq!(eval("0 + 0 => 0"), true);

    assert_eq!(eval("1 => 1 + 1"), true);
    assert_eq!(eval("1 => 0 + 1"), false);
    assert_eq!(eval("1 => 1 + 0"), false);
    assert_eq!(eval("1 => 0 + 0"), false);
}

#[test]
fn or() {
    assert_eq!(eval("1 | 1 => 0"), false);
    assert_eq!(eval("1 | 0 => 0"), false);
    assert_eq!(eval("0 | 1 => 0"), false);
    assert_eq!(eval("0 | 0 => 0"), true);

    assert_eq!(eval("1 => 1 | 1"), true);
    assert_eq!(eval("1 => 1 | 0"), true);
    assert_eq!(eval("1 => 0 | 1"), true);
    assert_eq!(eval("1 => 0 | 0"), false);
}

#[test]
fn xor() {
    assert_eq!(eval("1 ^ 1 => 0"), true);
    assert_eq!(eval("1 ^ 0 => 0"), false);
    assert_eq!(eval("0 ^ 1 => 0"), false);
    assert_eq!(eval("0 ^ 0 => 0"), true);

    assert_eq!(eval("1 => 1 ^ 1"), false);
    assert_eq!(eval("1 => 1 ^ 0"), true);
    assert_eq!(eval("1 => 0 ^ 1"), true);
    assert_eq!(eval("1 => 0 ^ 0"), false);
}

#[test]
fn parenthesis() {
    assert_eq!(eval("1 | 0 + 0 => 0"), true);
    assert_eq!(eval("(1 | 0) + 0 => 0"), true);
    assert_eq!(eval("1 | (0 + 0) => 0"), false);
    assert_eq!(eval("0 + 0 | 1 => 0"), false);
    assert_eq!(eval("(0 + 0) | 1 => 0"), false);
    assert_eq!(eval("0 + (0 | 1) => 0"), true);

    assert_eq!(eval("1 => 1 | 0 + 0"), false);
    assert_eq!(eval("1 => (1 | 0) + 0"), false);
    assert_eq!(eval("1 => 1 | (0 + 0)"), true);
    assert_eq!(eval("1 => 0 + 0 | 1"), true);
    assert_eq!(eval("1 => (0 + 0) | 1"), true);
    assert_eq!(eval("1 => 0 + (0 | 1)"), false);
}

#[test]
fn rule_parser_error_empty() {
    let result = evaluate_rule("");
    assert!(result.is_err());
    assert_eq!(result.unwrap_err().message(), "Unexpected end of token list");
}

#[test]
fn error_invalid_state() {
    let result = evaluate_rule("A => Z");
    assert!(result.is_err());
    assert_eq!(result.unwrap_err().message(), "Failed to tokenize input: 'A => Z'");
}

#[test]
fn error_invalid_operator() {
    let result = evaluate_rule("0 = 1");
    assert!(result.is_err());
    assert_eq!(result.unwrap_err().message(), "Failed to tokenize input: '0 = 1'");
}

#[test]
fn error_missing_operator_half() {
    let result = evaluate_rule("0 | => 0");
    assert!(result.is_err());
    assert_eq!(
        result.unwrap_err().message(),
        "Invalid factor token 'Implicator(UniDirectional)'"
    );
}

#[test]
fn error_missing_implicator() {
    let result = evaluate_rule("0");
    assert!(result.is_err());
    assert_eq!(result.unwrap_err().message(), "No implicator found");
}

#[test]
fn error_missing_parenthesis() {
    let result = evaluate_rule("(0 => 0");
    assert!(result.is_err());
    assert_eq!(result.unwrap_err().message(), "Missing closing parenthesis");
}

#[test]
fn tokens_of_a_rule() {
    let tokens = tokenize_rule("!(1 + 0) <=> 1").unwrap();
    assert_eq!(
        tokens,
        vec![
            Token::Operator('!'),
            Token::Parenthesis('('),
            Token::Bool(true),
            Token::Operator('+'),
            Token::Bool(false),
            Token::Parenthesis(')'),
            Token::Implicator(Direction::BiDirectional),
            Token::Bool(true),
        ]
    );
}

#[test]
fn unicode_white_space_separates_tokens() {
    assert_eq!(tokenize_rule("1\u{3000}=>\u{a0}0").unwrap().len(), 3);
    assert_eq!(eval("1\u{2003}=>\t0"), false);
}

#[test]
fn tokenize_errors() {
    assert_eq!(tokenize_rule("1 <= 0"), Err(TokenError::IncompleteImplicator));
    assert_eq!(tokenize_rule("1 =="), Err(TokenError::IncompleteImplicator));
    assert_eq!(tokenize_rule("1 & 0"), Err(TokenError::UnexpectedChar('&')));
    assert_eq!(TokenError::UnexpectedChar('&').message(), "Unexpected character: &");
    assert_eq!(
        TokenError::IncompleteImplicator.message(),
        "Unable to finish lexing implicator"
    );
}

#[test]
fn trailing_tokens_are_rejected() {
    assert!(matches!(
        evaluate_rule("1 => 0 => 1"),
        Err(EvalError::TrailingToken(Token::Implicator(Direction::UniDirectional)))
    ));
    assert_eq!(error_of("1 => 0 )"), "Found unexpected token: Parenthesis(')')");
    assert_eq!(error_of("1 ) => 0"), "No implicator found");
}

#[test]
fn operators_share_one_precedence_from_the_left() {
    assert_eq!(eval("1 => 1 + 0 | 1"), true);
    assert_eq!(eval("1 => 1 | 1 + 0"), false);
    assert_eq!(eval("1 => 1 ^ 1 ^ 1"), true);
    assert_eq!(eval("1 => !!1"), true);
}

#[test]
fn invalid_factors_are_named() {
    assert_eq!(error_of("1 => + 0"), "Invalid factor token 'Operator('+')'");
    assert_eq!(error_of(") => 0"), "Invalid factor token 'Parenthesis(')')'");
    assert_eq!(error_of("1 =>"), "Unexpected end of token list");
}
