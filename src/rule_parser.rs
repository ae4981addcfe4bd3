use vstd::prelude::*;

use crate::text::{chars_of, is_space, is_white_space, push_char};

verus! {

/// The two implication connectives: `=>` and `<=>`.
#[derive(Debug, Clone, Copy, PartialEq, Eq, Structural)]
pub enum Direction {
    UniDirectional,
    BiDirectional,
}

/// One lexical unit of a variable-free rule.
#[derive(Debug, Clone, Copy, PartialEq, Eq, Structural)]
pub enum Token {
    Implicator(Direction),
    Operator(char),
    Parenthesis(char),
    Bool(bool),
}

/// Why a rule could not be cut into tokens.
#[derive(Debug, Clone, Copy, PartialEq, Eq, Structural)]
pub enum TokenError {
    UnexpectedChar(char),
    IncompleteImplicator,
}

/// Why a rule could not be evaluated.
#[derive(Debug, Clone)]
pub enum EvalError {
    Tokenize { input: String, cause: TokenError },
    UnexpectedEnd,
    InvalidFactor(Token),
    MissingParenthesis,
    MissingImplicator,
    TrailingToken(Token),
}

/// The token that a single character stands for, if it stands for one on its own.
pub open spec fn single_token(c: char) -> Option<Token> {
    if c == '(' || c == ')' {
        Some(Token::Parenthesis(c))
    } else if c == '!' || c == '+' || c == '|' || c == '^' {
        Some(Token::Operator(c))
    } else if c == '0' {
        Some(Token::Bool(false))
    } else if c == '1' {
        Some(Token::Bool(true))
    } else {
        None
    }
}

pub open spec fn prepend(t: Token, r: Result<Seq<Token>, TokenError>) -> Result<
    Seq<Token>,
    TokenError,
> {
    match r {
        Ok(rest) => Ok(seq![t] + rest),
        Err(e) => Err(e),
    }
}

/// The tokens of `s`, read left to right; white space separates tokens and is dropped.
pub open spec fn lex(s: Seq<char>) -> Result<Seq<Token>, TokenError>
    decreases s.len(),
{
    if s.len() == 0 {
        Ok(Seq::empty())
    } else {
        let c = s[0];
        if c == '=' {
            if s.len() >= 2 && s[1] == '>' {
                prepend(Token::Implicator(Direction::UniDirectional), lex(s.skip(2)))
            } else {
                Err(TokenError::IncompleteImplicator)
            }
        } else if c == '<' {
            if s.len() >= 3 && s[1] == '=' && s[2] == '>' {
                prepend(Token::Implicator(Direction::BiDirectional), lex(s.skip(3)))
            } else {
                Err(TokenError::IncompleteImplicator)
            }
        } else if single_token(c) is Some {
            prepend(single_token(c)->Some_0, lex(s.skip(1)))
        } else if is_space(c) {
            lex(s.skip(1))
        } else {
            Err(TokenError::UnexpectedChar(c))
        }
    }
}

pub open spec fn glue(pre: Seq<Token>, r: Result<Seq<Token>, TokenError>) -> Result<
    Seq<Token>,
    TokenError,
> {
    match r {
        Ok(rest) => Ok(pre + rest),
        Err(e) => Err(e),
    }
}

proof fn lemma_glue_push(pre: Seq<Token>, t: Token, r: Result<Seq<Token>, TokenError>)
    ensures
        glue(pre.push(t), r) == glue(pre, prepend(t, r)),
{
    if let Ok(rest) = r {
        assert(pre.push(t) + rest =~= pre + (seq![t] + rest));
    }
}

/// Cuts a variable-free rule into tokens.
pub fn tokenize_rule(input: &str) -> (r: Result<Vec<Token>, TokenError>)
    ensures
        match r {
            Ok(t) => lex(input@) == Ok::<Seq<Token>, TokenError>(t@),
            Err(e) => lex(input@) == Err::<Seq<Token>, TokenError>(e),
        },
{
    let cs = chars_of(input);
    let mut toks: Vec<Token> = Vec::new();
    let mut i: usize = 0;
    assert(cs@.skip(0) =~= cs@);
    while i < cs.len()
        invariant
            0 <= i <= cs@.len(),
            cs@ == input@,
            lex(cs@) == glue(toks@, lex(cs@.skip(i as int))),
        decreases cs.len() - i,
    {
        let ghost rest = cs@.skip(i as int);
        let c = cs[i];
        assert(rest[0] == c);
        if c == '=' {
            if i + 1 < cs.len() && cs[i + 1] == '>' {
                assert(rest[1] == cs@[i + 1]);
                assert(rest.skip(2) =~= cs@.skip(i + 2));
                proof {
                    lemma_glue_push(
                        toks@,
                        Token::Implicator(Direction::UniDirectional),
                        lex(rest.skip(2)),
                    );
                }
                toks.push(Token::Implicator(Direction::UniDirectional));
                i = i + 2;
            } else {
                return Err(TokenError::IncompleteImplicator);
            }
        } else if c == '<' {
            if i + 1 < cs.len() && i + 2 < cs.len() && cs[i + 1] == '=' && cs[i + 2] == '>' {
                assert(rest[1] == cs@[i + 1] && rest[2] == cs@[i + 2]);
                assert(rest.skip(3) =~= cs@.skip(i + 3));
                proof {
                    lemma_glue_push(
                        toks@,
                        Token::Implicator(Direction::BiDirectional),
                        lex(rest.skip(3)),
                    );
                }
                toks.push(Token::Implicator(Direction::BiDirectional));
                i = i + 3;
            } else {
                if i + 1 < cs.len() {
                    assert(rest[1] == cs@[i + 1]);
                }
                if i + 1 < cs.len() && i + 2 < cs.len() {
                    assert(rest[2] == cs@[i + 2]);
                }
                return Err(TokenError::IncompleteImplicator);
            }
        } else {
            let single: Option<Token> = if c == '(' || c == ')' {
                Some(Token::Parenthesis(c))
            } else if c == '!' || c == '+' || c == '|' || c == '^' {
                Some(Token::Operator(c))
            } else if c == '0' {
                Some(Token::Bool(false))
            } else if c == '1' {
                Some(Token::Bool(true))
            } else {
                None
            };
            assert(single == single_token(c));
            assert(rest.skip(1) =~= cs@.skip(i + 1));
            match single {
                Some(t) => {
                    proof {
                        lemma_glue_push(toks@, t, lex(rest.skip(1)));
                    }
                    toks.push(t);
                },
                None => {
                    if !is_white_space(c) {
                        return Err(TokenError::UnexpectedChar(c));
                    }
                },
            }
            i = i + 1;
        }
    }
    assert(cs@.skip(i as int) =~= Seq::<char>::empty());
    assert(toks@ + Seq::<Token>::empty() =~= toks@);
    Ok(toks)
}

pub open spec fn is_binary(t: Token) -> bool {
    match t {
        Token::Operator(c) => c == '+' || c == '|' || c == '^',
        _ => false,
    }
}

/// `+` is AND, `|` is OR, `^` is XOR.
pub open spec fn apply(op: char, a: bool, b: bool) -> bool {
    if op == '+' {
        a && b
    } else if op == '|' {
        a || b
    } else {
        a != b
    }
}

/// `=>` is material implication, `<=>` is equivalence.
pub open spec fn implies(d: Direction, a: bool, c: bool) -> bool {
    match d {
        Direction::UniDirectional => !a || c,
        Direction::BiDirectional => a == c,
    }
}

/// A factor that starts at position `p`: a literal, `!` before a factor, or a
/// parenthesised expression. Its value, and the position after it.
pub open spec fn factor(t: Seq<Token>, p: int) -> Result<(bool, int), EvalError>
    decreases t.len() - p, 0int,
{
    if p < 0 || p >= t.len() {
        Err(EvalError::UnexpectedEnd)
    } else {
        match t[p] {
            Token::Bool(b) => Ok((b, p + 1)),
            Token::Operator(c) => if c == '!' {
                match factor(t, p + 1) {
                    Ok((v, q)) => Ok((!v, q)),
                    Err(e) => Err(e),
                }
            } else {
                Err(EvalError::InvalidFactor(t[p]))
            },
            Token::Parenthesis(c) => if c == '(' {
                match expr(t, p + 1) {
                    Ok((v, q)) => if 0 <= q < t.len() && t[q] == Token::Parenthesis(')') {
                        Ok((v, q + 1))
                    } else {
                        Err(EvalError::MissingParenthesis)
                    },
                    Err(e) => Err(e),
                }
            } else {
                Err(EvalError::InvalidFactor(t[p]))
            },
            Token::Implicator(_) => Err(EvalError::InvalidFactor(t[p])),
        }
    }
}

/// An expression that starts at position `p`: factors joined by binary operators,
/// all of one precedence, grouped from the left.
pub open spec fn expr(t: Seq<Token>, p: int) -> Result<(bool, int), EvalError>
    decreases t.len() - p, 1int,
{
    if p < 0 || p >= t.len() {
        Err(EvalError::UnexpectedEnd)
    } else {
        match factor(t, p) {
            Ok((v, q)) => if p < q <= t.len() {
                expr_tail(t, v, q)
            } else {
                Ok((v, q))
            },
            Err(e) => Err(e),
        }
    }
}

/// The rest of an expression whose value so far is `acc`, from position `q` on.
pub open spec fn expr_tail(t: Seq<Token>, acc: bool, q: int) -> Result<(bool, int), EvalError>
    decreases t.len() - q, 2int,
{
    if 0 <= q < t.len() && is_binary(t[q]) {
        match factor(t, q + 1) {
            Ok((v, r)) => if q < r <= t.len() {
                expr_tail(t, apply(t[q]->Operator_0, acc, v), r)
            } else {
                Ok((acc, q))
            },
            Err(e) => Err(e),
        }
    } else {
        Ok((acc, q))
    }
}

/// The value of a whole token list: an expression, one implicator, an expression,
/// and nothing after it.
pub open spec fn parse_rule(t: Seq<Token>) -> Result<bool, EvalError> {
    match expr(t, 0) {
        Err(e) => Err(e),
        Ok((a, q)) => if 0 <= q < t.len() {
            match t[q] {
                Token::Implicator(d) => match expr(t, q + 1) {
                    Err(e) => Err(e),
                    Ok((c, r)) => if 0 <= r < t.len() {
                        Err(EvalError::TrailingToken(t[r]))
                    } else {
                        Ok(implies(d, a, c))
                    },
                },
                _ => Err(EvalError::MissingImplicator),
            }
        } else {
            Err(EvalError::MissingImplicator)
        },
    }
}

/// What a rule text evaluates to: a tokenizing error names the text, any other
/// error is the parse error of its tokens.
#[verifier::opaque]
pub open spec fn eval_outcome(s: Seq<char>, r: Result<bool, EvalError>) -> bool {
    match lex(s) {
        Err(e) => match r {
            Err(EvalError::Tokenize { input, cause }) => input@ == s && cause == e,
            _ => false,
        },
        Ok(t) => r == parse_rule(t),
    }
}

pub open spec fn spans(r: Result<(bool, usize), EvalError>, s: Result<(bool, int), EvalError>, p: int, len: int) -> bool {
    match r {
        Ok((v, q)) => s == Ok::<(bool, int), EvalError>((v, q as int)) && p < q <= len,
        Err(e) => s == Err::<(bool, int), EvalError>(e),
    }
}

fn get_factor(t: &Vec<Token>, p: usize) -> (r: Result<(bool, usize), EvalError>)
    requires
        p <= t@.len(),
    ensures
        spans(r, factor(t@, p as int), p as int, t@.len() as int),
    decreases t@.len() - p, 0int,
{
    if p >= t.len() {
        return Err(EvalError::UnexpectedEnd);
    }
    match t[p] {
        Token::Bool(b) => Ok((b, p + 1)),
        Token::Operator(c) => {
            if c == '!' {
                match get_factor(t, p + 1) {
                    Ok((v, q)) => Ok((!v, q)),
                    Err(e) => Err(e),
                }
            } else {
                Err(EvalError::InvalidFactor(t[p]))
            }
        },
        Token::Parenthesis(c) => {
            if c == '(' {
                match get_operator(t, p + 1) {
                    Ok((v, q)) => {
                        if q < t.len() && t[q] == Token::Parenthesis(')') {
                            Ok((v, q + 1))
                        } else {
                            Err(EvalError::MissingParenthesis)
                        }
                    },
                    Err(e) => Err(e),
                }
            } else {
                Err(EvalError::InvalidFactor(t[p]))
            }
        },
        Token::Implicator(_) => Err(EvalError::InvalidFactor(t[p])),
    }
}

fn is_binary_token(t: Token) -> (r: bool)
    ensures
        r == is_binary(t),
{
    match t {
        Token::Operator(c) => c == '+' || c == '|' || c == '^',
        _ => false,
    }
}

fn get_operator(t: &Vec<Token>, p: usize) -> (r: Result<(bool, usize), EvalError>)
    requires
        p <= t@.len(),
    ensures
        spans(r, expr(t@, p as int), p as int, t@.len() as int),
    decreases t@.len() - p, 1int,
{
    if p >= t.len() {
        return Err(EvalError::UnexpectedEnd);
    }
    let (mut acc, mut q) = match get_factor(t, p) {
        Ok(pair) => pair,
        Err(e) => return Err(e),
    };
    while q < t.len() && is_binary_token(t[q])
        invariant
            p < q <= t@.len(),
            expr(t@, p as int) == expr_tail(t@, acc, q as int),
        decreases t@.len() - q,
    {
        let op = match t[q] {
            Token::Operator(c) => c,
            _ => '+',
        };
        match get_factor(t, q + 1) {
            Ok((v, r)) => {
                acc = if op == '+' {
                    acc && v
                } else if op == '|' {
                    acc || v
                } else {
                    acc != v
                };
                q = r;
            },
            Err(e) => return Err(e),
        }
    }
    Ok((acc, q))
}

fn get_rule(t: &Vec<Token>) -> (r: Result<bool, EvalError>)
    ensures
        r == parse_rule(t@),
{
    let (antecedent, q) = match get_operator(t, 0) {
        Ok(pair) => pair,
        Err(e) => return Err(e),
    };
    if q >= t.len() {
        return Err(EvalError::MissingImplicator);
    }
    match t[q] {
        Token::Implicator(d) => {
            let (consequent, r) = match get_operator(t, q + 1) {
                Ok(pair) => pair,
                Err(e) => return Err(e),
            };
            if r < t.len() {
                Err(EvalError::TrailingToken(t[r]))
            } else {
                match d {
                    Direction::UniDirectional => Ok(!antecedent || consequent),
                    Direction::BiDirectional => Ok(antecedent == consequent),
                }
            }
        },
        _ => Err(EvalError::MissingImplicator),
    }
}

/// Evaluates a rule in which every variable has been replaced by `0` or `1`.
pub fn evaluate_rule(input: &str) -> (r: Result<bool, EvalError>)
    ensures
        eval_outcome(input@, r),
{
    reveal(eval_outcome);
    match tokenize_rule(input) {
        Ok(t) => get_rule(&t),
        Err(cause) => Err(EvalError::Tokenize { input: input.to_string(), cause }),
    }
}

/// How a token is written in messages.
pub open spec fn token_text(t: Token) -> Seq<char> {
    match t {
        Token::Implicator(Direction::UniDirectional) => "Implicator(UniDirectional)"@,
        Token::Implicator(Direction::BiDirectional) => "Implicator(BiDirectional)"@,
        Token::Operator(c) => "Operator('"@ + seq![c] + "')"@,
        Token::Parenthesis(c) => "Parenthesis('"@ + seq![c] + "')"@,
        Token::Bool(true) => "Bool(true)"@,
        Token::Bool(false) => "Bool(false)"@,
    }
}

impl Token {
    /// How the token is written in messages.
    pub fn describe(&self) -> (r: String)
        ensures
            r@ == token_text(*self),
    {
        match *self {
            Token::Implicator(Direction::UniDirectional) => String::from_str(
                "Implicator(UniDirectional)",
            ),
            Token::Implicator(Direction::BiDirectional) => String::from_str(
                "Implicator(BiDirectional)",
            ),
            Token::Operator(c) => {
                let mut r = String::from_str("Operator('");
                push_char(&mut r, c);
                r.append("')");
                r
            },
            Token::Parenthesis(c) => {
                let mut r = String::from_str("Parenthesis('");
                push_char(&mut r, c);
                r.append("')");
                r
            },
            Token::Bool(true) => String::from_str("Bool(true)"),
            Token::Bool(false) => String::from_str("Bool(false)"),
        }
    }
}

impl TokenError {
    pub open spec fn text(&self) -> Seq<char> {
        match *self {
            TokenError::UnexpectedChar(c) => "Unexpected character: "@ + seq![c],
            TokenError::IncompleteImplicator => "Unable to finish lexing implicator"@,
        }
    }

    /// The error, in words.
    pub fn message(&self) -> (r: String)
        ensures
            r@ == self.text(),
    {
        match *self {
            TokenError::UnexpectedChar(c) => {
                let mut r = String::from_str("Unexpected character: ");
                push_char(&mut r, c);
                r
            },
            TokenError::IncompleteImplicator => String::from_str(
                "Unable to finish lexing implicator",
            ),
        }
    }
}

impl EvalError {
    pub open spec fn text(&self) -> Seq<char> {
        match self {
            EvalError::Tokenize { input, cause } => "Failed to tokenize input: '"@ + input@ + "'"@,
            EvalError::UnexpectedEnd => "Unexpected end of token list"@,
            EvalError::InvalidFactor(t) => "Invalid factor token '"@ + token_text(*t) + "'"@,
            EvalError::MissingParenthesis => "Missing closing parenthesis"@,
            EvalError::MissingImplicator => "No implicator found"@,
            EvalError::TrailingToken(t) => "Found unexpected token: "@ + token_text(*t),
        }
    }

    /// The error, in words.
    pub fn message(&self) -> (r: String)
        ensures
            r@ == self.text(),
    {
        match self {
            EvalError::Tokenize { input, cause: _ } => {
                let mut r = String::from_str("Failed to tokenize input: '");
                r.append(input.as_str());
                r.append("'");
                r
            },
            EvalError::UnexpectedEnd => String::from_str("Unexpected end of token list"),
            EvalError::InvalidFactor(t) => {
                let mut r = String::from_str("Invalid factor token '");
                r.append(t.describe().as_str());
                r.append("'");
                r
            },
            EvalError::MissingParenthesis => String::from_str("Missing closing parenthesis"),
            EvalError::MissingImplicator => String::from_str("No implicator found"),
            EvalError::TrailingToken(t) => {
                let mut r = String::from_str("Found unexpected token: ");
                r.append(t.describe().as_str());
                r
            },
        }
    }
}

/// A rule evaluator, kept for callers that hold one.
#[derive(Debug, Clone, Copy, Default)]
pub struct RuleParser;

impl RuleParser {
    pub fn new() -> (r: RuleParser) {
        RuleParser
    }

    /// Cuts a variable-free rule into tokens.
    pub fn tokenize(&mut self, input: &str) -> (r: Result<Vec<Token>, TokenError>)
        ensures
            match r {
                Ok(t) => lex(input@) == Ok::<Seq<Token>, TokenError>(t@),
                Err(e) => lex(input@) == Err::<Seq<Token>, TokenError>(e),
            },
    {
        tokenize_rule(input)
    }

    /// Evaluates a rule in which every variable has been replaced by `0` or `1`.
    pub fn evaluate(&mut self, input: &str) -> (r: Result<bool, EvalError>)
        ensures
            eval_outcome(input@, r),
    {
        evaluate_rule(input)
    }
}

} // verus!
