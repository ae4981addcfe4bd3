use vstd::prelude::*;

use crate::rule_parser::Direction;
use crate::text::{chars_of, is_space, is_white_space};

verus! {

/// One lexical unit of a rule over variables.
#[derive(Debug, Clone, Copy, PartialEq, Eq, Structural)]
pub enum Token {
    Implicator(Direction),
    Operator(char),
    Parenthesis(char),
    Attribute(char),
}

/// Why a rule could not be parsed into a tree.
#[derive(Debug, Clone, Copy, PartialEq, Eq, Structural)]
pub enum ParseError {
    UnexpectedChar(char),
    IncompleteImplicator,
    UnexpectedEnd,
    MissingParenthesis,
    MissingImplicator,
    UnexpectedToken(Token),
}

/// A subtree, or nothing.
pub type Branch = Box<Option<Node>>;

/// A node of a rule's syntax tree: an operator with its operands, or a variable.
#[derive(Debug)]
pub struct Node {
    pub token: Token,
    pub left: Branch,
    pub right: Branch,
}

impl Node {
    pub fn new(token: Token, left: Branch, right: Branch) -> (r: Node)
        ensures
            r == (Node { token, left, right }),
    {
        Node { token, left, right }
    }
}

/// The token that a single character stands for, if it stands for one on its own.
pub open spec fn syntax_token(c: char) -> Option<Token> {
    if c == '(' || c == ')' {
        Some(Token::Parenthesis(c))
    } else if c == '!' || c == '+' || c == '|' || c == '^' {
        Some(Token::Operator(c))
    } else if 'A' <= c && c <= 'Z' {
        Some(Token::Attribute(c))
    } else {
        None
    }
}

pub open spec fn prepend(t: Token, r: Result<Seq<Token>, ParseError>) -> Result<
    Seq<Token>,
    ParseError,
> {
    match r {
        Ok(rest) => Ok(seq![t] + rest),
        Err(e) => Err(e),
    }
}

pub open spec fn glue(pre: Seq<Token>, r: Result<Seq<Token>, ParseError>) -> Result<
    Seq<Token>,
    ParseError,
> {
    match r {
        Ok(rest) => Ok(pre + rest),
        Err(e) => Err(e),
    }
}

/// The tokens of a rule over variables, read left to right; white space is dropped.
pub open spec fn lex_rule(s: Seq<char>) -> Result<Seq<Token>, ParseError>
    decreases s.len(),
{
    if s.len() == 0 {
        Ok(Seq::empty())
    } else {
        let c = s[0];
        if c == '=' {
            if s.len() >= 2 && s[1] == '>' {
                prepend(Token::Implicator(Direction::UniDirectional), lex_rule(s.skip(2)))
            } else {
                Err(ParseError::IncompleteImplicator)
            }
        } else if c == '<' {
            if s.len() >= 3 && s[1] == '=' && s[2] == '>' {
                prepend(Token::Implicator(Direction::BiDirectional), lex_rule(s.skip(3)))
            } else {
                Err(ParseError::IncompleteImplicator)
            }
        } else if syntax_token(c) is Some {
            prepend(syntax_token(c)->Some_0, lex_rule(s.skip(1)))
        } else if is_space(c) {
            lex_rule(s.skip(1))
        } else {
            Err(ParseError::UnexpectedChar(c))
        }
    }
}

pub open spec fn is_binary(t: Token) -> bool {
    match t {
        Token::Operator(c) => c == '+' || c == '|' || c == '^',
        _ => false,
    }
}

pub open spec fn branch(token: Token, left: Branch, right: Branch) -> Branch {
    Box::new(Some(Node { token, left, right }))
}

pub open spec fn empty_branch() -> Branch {
    Box::new(None)
}

/// The factor at position `p`: a variable, `!` before a factor, or a parenthesised
/// operand; its tree and the position after it.
pub open spec fn tree_factor(t: Seq<Token>, p: int) -> Result<(Branch, int), ParseError>
    decreases t.len() - p, 0int,
{
    if p < 0 || p >= t.len() {
        Err(ParseError::UnexpectedEnd)
    } else {
        match t[p] {
            Token::Attribute(_) => Ok((branch(t[p], empty_branch(), empty_branch()), p + 1)),
            Token::Operator(c) => if c == '!' {
                match tree_factor(t, p + 1) {
                    Ok((n, q)) => Ok((branch(t[p], n, empty_branch()), q)),
                    Err(e) => Err(e),
                }
            } else {
                Err(ParseError::UnexpectedToken(t[p]))
            },
            Token::Parenthesis(c) => if c == '(' {
                match tree_operand(t, p + 1) {
                    Ok((n, q)) => if 0 <= q < t.len() && t[q] == Token::Parenthesis(')') {
                        Ok((n, q + 1))
                    } else {
                        Err(ParseError::MissingParenthesis)
                    },
                    Err(e) => Err(e),
                }
            } else {
                Err(ParseError::UnexpectedToken(t[p]))
            },
            Token::Implicator(_) => Err(ParseError::UnexpectedToken(t[p])),
        }
    }
}

/// The operand at position `p`: a factor, or a factor, a binary operator and an
/// operand, grouped to the right.
pub open spec fn tree_operand(t: Seq<Token>, p: int) -> Result<(Branch, int), ParseError>
    decreases t.len() - p, 1int,
{
    if p < 0 || p >= t.len() {
        Err(ParseError::UnexpectedEnd)
    } else {
        match tree_factor(t, p) {
            Err(e) => Err(e),
            Ok((n, q)) => if p < q < t.len() && is_binary(t[q]) {
                match tree_operand(t, q + 1) {
                    Ok((r, s)) => Ok((branch(t[q], n, r), s)),
                    Err(e) => Err(e),
                }
            } else {
                Ok((n, q))
            },
        }
    }
}

/// The tree of a whole rule: an operand, an implicator, an operand, and nothing more.
pub open spec fn tree_rule(t: Seq<Token>) -> Result<Branch, ParseError> {
    match tree_operand(t, 0) {
        Err(e) => Err(e),
        Ok((a, q)) => if 0 <= q < t.len() && t[q] is Implicator {
            match tree_operand(t, q + 1) {
                Err(e) => Err(e),
                Ok((c, r)) => if 0 <= r < t.len() {
                    Err(ParseError::UnexpectedToken(t[r]))
                } else {
                    Ok(branch(t[q], a, c))
                },
            }
        } else {
            Err(ParseError::MissingImplicator)
        },
    }
}

/// What parsing the text `s` gives.
pub open spec fn parse_text(s: Seq<char>) -> Result<Branch, ParseError> {
    match lex_rule(s) {
        Err(e) => Err(e),
        Ok(t) => tree_rule(t),
    }
}

pub open spec fn spans(r: Result<(Branch, usize), ParseError>, s: Result<(Branch, int), ParseError>, p: int, len: int) -> bool {
    match r {
        Ok((n, q)) => s == Ok::<(Branch, int), ParseError>((n, q as int)) && p < q <= len,
        Err(e) => s == Err::<(Branch, int), ParseError>(e),
    }
}

proof fn lemma_glue_push(pre: Seq<Token>, t: Token, r: Result<Seq<Token>, ParseError>)
    ensures
        glue(pre.push(t), r) == glue(pre, prepend(t, r)),
{
    if let Ok(rest) = r {
        assert(pre.push(t) + rest =~= pre + (seq![t] + rest));
    }
}

fn factor(t: &Vec<Token>, p: usize) -> (r: Result<(Branch, usize), ParseError>)
    requires
        p <= t@.len(),
    ensures
        spans(r, tree_factor(t@, p as int), p as int, t@.len() as int),
    decreases t@.len() - p, 0int,
{
    if p >= t.len() {
        return Err(ParseError::UnexpectedEnd);
    }
    let tok = t[p];
    match tok {
        Token::Attribute(_) => Ok(
            (Box::new(Some(Node::new(tok, Box::new(None), Box::new(None)))), p + 1),
        ),
        Token::Operator(c) => {
            if c == '!' {
                match factor(t, p + 1) {
                    Ok((n, q)) => Ok((Box::new(Some(Node::new(tok, n, Box::new(None)))), q)),
                    Err(e) => Err(e),
                }
            } else {
                Err(ParseError::UnexpectedToken(tok))
            }
        },
        Token::Parenthesis(c) => {
            if c == '(' {
                match operand(t, p + 1) {
                    Ok((n, q)) => {
                        if q < t.len() && t[q] == Token::Parenthesis(')') {
                            Ok((n, q + 1))
                        } else {
                            Err(ParseError::MissingParenthesis)
                        }
                    },
                    Err(e) => Err(e),
                }
            } else {
                Err(ParseError::UnexpectedToken(tok))
            }
        },
        Token::Implicator(_) => Err(ParseError::UnexpectedToken(tok)),
    }
}

fn is_binary_token(t: Token) -> (r: bool)
    ensures
        r == is_binary(t),
{
    match t {
        Token::Operator(c) => c == '+' || c == '|' || c == '^',
        _ => false,
    }
}

fn operand(t: &Vec<Token>, p: usize) -> (r: Result<(Branch, usize), ParseError>)
    requires
        p <= t@.len(),
    ensures
        spans(r, tree_operand(t@, p as int), p as int, t@.len() as int),
    decreases t@.len() - p, 1int,
{
    if p >= t.len() {
        return Err(ParseError::UnexpectedEnd);
    }
    let (n, q) = match factor(t, p) {
        Ok(pair) => pair,
        Err(e) => return Err(e),
    };
    if q < t.len() && is_binary_token(t[q]) {
        match operand(t, q + 1) {
            Ok((r, s)) => Ok((Box::new(Some(Node::new(t[q], n, r))), s)),
            Err(e) => Err(e),
        }
    } else {
        Ok((n, q))
    }
}

/// Builds syntax trees of rules over variables.
#[derive(Debug, Clone, Copy, Default)]
pub struct Parser;

impl Parser {
    pub fn new() -> (r: Parser) {
        Parser
    }

    /// Cuts a rule over variables into tokens.
    pub fn tokenize(&mut self, input: &str) -> (r: Result<Vec<Token>, ParseError>)
        ensures
            match r {
                Ok(t) => lex_rule(input@) == Ok::<Seq<Token>, ParseError>(t@),
                Err(e) => lex_rule(input@) == Err::<Seq<Token>, ParseError>(e),
            },
    {
        let cs = chars_of(input);
        let mut toks: Vec<Token> = Vec::new();
        let mut i: usize = 0;
        assert(cs@.skip(0) =~= cs@);
        while i < cs.len()
            invariant
                0 <= i <= cs@.len(),
                cs@ == input@,
                lex_rule(cs@) == glue(toks@, lex_rule(cs@.skip(i as int))),
            decreases cs.len() - i,
        {
            let ghost rest = cs@.skip(i as int);
            let c = cs[i];
            assert(rest[0] == c);
            if c == '=' {
                if i + 1 < cs.len() && cs[i + 1] == '>' {
                    assert(rest[1] == cs@[i + 1]);
                    assert(rest.skip(2) =~= cs@.skip(i + 2));
                    proof {
                        lemma_glue_push(
                            toks@,
                            Token::Implicator(Direction::UniDirectional),
                            lex_rule(rest.skip(2)),
                        );
                    }
                    toks.push(Token::Implicator(Direction::UniDirectional));
                    i = i + 2;
                } else {
                    return Err(ParseError::IncompleteImplicator);
                }
            } else if c == '<' {
                if i + 1 < cs.len() && i + 2 < cs.len() && cs[i + 1] == '=' && cs[i + 2] == '>' {
                    assert(rest[1] == cs@[i + 1] && rest[2] == cs@[i + 2]);
                    assert(rest.skip(3) =~= cs@.skip(i + 3));
                    proof {
                        lemma_glue_push(
                            toks@,
                            Token::Implicator(Direction::BiDirectional),
                            lex_rule(rest.skip(3)),
                        );
                    }
                    toks.push(Token::Implicator(Direction::BiDirectional));
                    i = i + 3;
                } else {
                    if i + 1 < cs.len() {
                        assert(rest[1] == cs@[i + 1]);
                    }
                    if i + 1 < cs.len() && i + 2 < cs.len() {
                        assert(rest[2] == cs@[i + 2]);
                    }
                    return Err(ParseError::IncompleteImplicator);
                }
            } else {
                let single: Option<Token> = if c == '(' || c == ')' {
                    Some(Token::Parenthesis(c))
                } else if c == '!' || c == '+' || c == '|' || c == '^' {
                    Some(Token::Operator(c))
                } else if 'A' <= c && c <= 'Z' {
                    Some(Token::Attribute(c))
                } else {
                    None
                };
                assert(single == syntax_token(c));
                assert(rest.skip(1) =~= cs@.skip(i + 1));
                match single {
                    Some(t) => {
                        proof {
                            lemma_glue_push(toks@, t, lex_rule(rest.skip(1)));
                        }
                        toks.push(t);
                    },
                    None => {
                        if !is_white_space(c) {
                            return Err(ParseError::UnexpectedChar(c));
                        }
                    },
                }
                i = i + 1;
            }
        }
        assert(cs@.skip(i as int) =~= Seq::<char>::empty());
        assert(toks@ + Seq::<Token>::empty() =~= toks@);
        Ok(toks)
    }

    /// The syntax tree of a rule: the implicator at the root, the antecedent on the
    /// left and the consequent on the right.
    pub fn parse(&mut self, input: &str) -> (r: Result<Branch, ParseError>)
        ensures
            r == parse_text(input@),
    {
        let t = match self.tokenize(input) {
            Ok(t) => t,
            Err(e) => return Err(e),
        };
        let (antecedent, q) = match operand(&t, 0) {
            Ok(pair) => pair,
            Err(e) => return Err(e),
        };
        if q >= t.len() {
            return Err(ParseError::MissingImplicator);
        }
        let tok = t[q];
        match tok {
            Token::Implicator(_) => {},
            _ => return Err(ParseError::MissingImplicator),
        }
        let (consequent, r) = match operand(&t, q + 1) {
            Ok(pair) => pair,
            Err(e) => return Err(e),
        };
        if r < t.len() {
            return Err(ParseError::UnexpectedToken(t[r]));
        }
        Ok(Box::new(Some(Node::new(tok, antecedent, consequent))))
    }
}

} // verus!
