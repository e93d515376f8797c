use vstd::prelude::*;

use crate::node::{LeafView, Node, Operand, Rational, Tree, Variable};
use crate::tokenizer::{lex, views, Token, TokenView, Tokenizer, TokenizeError};

verus! {

/// Why a text is not an equation of the grammar.
#[derive(Debug, Clone, Copy, PartialEq, Eq, Structural)]
pub enum ParseError {
    Tokenize(TokenizeError),
    MissingEquationOperator,
    UnexpectedToken,
    UnexpectedEndOfInput,
    MissingParenthesis,
}

/// A tree parsed from a prefix of the tokens, with the position after it.
pub type Parsed = Result<(Tree, int), ParseError>;

/// The operator of `t` if it is one of `+` and `-`.
pub open spec fn additive(t: TokenView) -> Option<char> {
    match t {
        TokenView::Operator(c) => if c == '+' || c == '-' {
            Some(c)
        } else {
            None
        },
        _ => None,
    }
}

/// The operator of `t` if it is one of `*`, `/` and `%`.
pub open spec fn multiplicative(t: TokenView) -> Option<char> {
    match t {
        TokenView::Operator(c) => if c == '*' || c == '/' || c == '%' {
            Some(c)
        } else {
            None
        },
        _ => None,
    }
}

pub open spec fn is_token(t: Seq<TokenView>, p: int, tok: TokenView) -> bool {
    0 <= p < t.len() && t[p] == tok
}

/// `primary := Number | Identifier | '(' expression ')' | '-' factor`
pub open spec fn parse_primary(t: Seq<TokenView>, p: int) -> Parsed
    decreases t.len() - p, 0int,
{
    if p < 0 || p >= t.len() {
        Err(ParseError::UnexpectedEndOfInput)
    } else {
        match t[p] {
            TokenView::Number(d) => Ok((Tree::Leaf(LeafView::Number(d)), p + 1)),
            TokenView::Identifier(s) => Ok((Tree::Leaf(LeafView::Variable(s)), p + 1)),
            TokenView::Parenthesis(c) => if c == '(' {
                match parse_expression(t, p + 1) {
                    Ok((e, q)) => if p < q && is_token(t, q, TokenView::Parenthesis(')')) {
                        Ok((e, q + 1))
                    } else {
                        Err(ParseError::MissingParenthesis)
                    },
                    Err(e) => Err(e),
                }
            } else {
                Err(ParseError::UnexpectedToken)
            },
            TokenView::Operator(c) => if c == '-' {
                match parse_factor(t, p + 1) {
                    Ok((e, q)) => Ok((Tree::Unary('-', Box::new(e)), q)),
                    Err(e) => Err(e),
                }
            } else {
                Err(ParseError::UnexpectedToken)
            },
        }
    }
}

/// `factor := primary ('^' factor)?`
pub open spec fn parse_factor(t: Seq<TokenView>, p: int) -> Parsed
    decreases t.len() - p, 1int,
{
    match parse_primary(t, p) {
        Ok((l, q)) => if p < q && is_token(t, q, TokenView::Operator('^')) {
            match parse_factor(t, q + 1) {
                Ok((r, q2)) => Ok((Tree::Binary('^', Box::new(l), Box::new(r)), q2)),
                Err(e) => Err(e),
            }
        } else {
            Ok((l, q))
        },
        Err(e) => Err(e),
    }
}

/// The rest of a `term` after `acc`: `(('*' | '/' | '%') factor)*`, left
/// associative.
pub open spec fn parse_term_rest(t: Seq<TokenView>, acc: Tree, q: int) -> Parsed
    decreases t.len() - q, 2int,
{
    if 0 <= q < t.len() && multiplicative(t[q]) is Some {
        match parse_factor(t, q + 1) {
            Ok((r, q2)) => if q < q2 <= t.len() {
                parse_term_rest(t, Tree::Binary(multiplicative(t[q])->0, Box::new(acc), Box::new(r)), q2)
            } else {
                Ok((acc, q))
            },
            Err(e) => Err(e),
        }
    } else {
        Ok((acc, q))
    }
}

/// `term := factor (('*' | '/' | '%') factor)*`
pub open spec fn parse_term(t: Seq<TokenView>, p: int) -> Parsed
    decreases t.len() - p, 3int,
{
    match parse_factor(t, p) {
        Ok((l, q)) => if p < q <= t.len() {
            parse_term_rest(t, l, q)
        } else {
            Ok((l, q))
        },
        Err(e) => Err(e),
    }
}

/// The rest of an `expression` after `acc`: `(('+' | '-') term)*`, left
/// associative.
pub open spec fn parse_expression_rest(t: Seq<TokenView>, acc: Tree, q: int) -> Parsed
    decreases t.len() - q, 4int,
{
    if 0 <= q < t.len() && additive(t[q]) is Some {
        match parse_term(t, q + 1) {
            Ok((r, q2)) => if q < q2 <= t.len() {
                parse_expression_rest(t, Tree::Binary(additive(t[q])->0, Box::new(acc), Box::new(r)), q2)
            } else {
                Ok((acc, q))
            },
            Err(e) => Err(e),
        }
    } else {
        Ok((acc, q))
    }
}

/// `expression := term (('+' | '-') term)*`
pub open spec fn parse_expression(t: Seq<TokenView>, p: int) -> Parsed
    decreases t.len() - p, 5int,
{
    match parse_term(t, p) {
        Ok((l, q)) => if p < q <= t.len() {
            parse_expression_rest(t, l, q)
        } else {
            Ok((l, q))
        },
        Err(e) => Err(e),
    }
}

/// `equation := expression '=' expression`, with nothing after it; the
/// equation `lhs = rhs` becomes the tree of `lhs - rhs`.
pub open spec fn parse_equation(t: Seq<TokenView>) -> Result<Tree, ParseError> {
    match parse_expression(t, 0) {
        Ok((l, q)) => if is_token(t, q, TokenView::Operator('=')) {
            match parse_expression(t, q + 1) {
                Ok((r, q2)) => if q2 == t.len() {
                    Ok(Tree::Binary('-', Box::new(l), Box::new(r)))
                } else {
                    Err(ParseError::UnexpectedToken)
                },
                Err(e) => Err(e),
            }
        } else {
            Err(ParseError::MissingEquationOperator)
        },
        Err(e) => Err(e),
    }
}

/// The tree of a whole equation text, or the reason it has none.
pub open spec fn parse_text(s: Seq<char>) -> Result<Tree, ParseError> {
    match lex(s) {
        Ok(ts) => parse_equation(ts),
        Err(e) => Err(ParseError::Tokenize(e)),
    }
}


/// The parse step `spec` of the tokens `t` from `p`, as an exec result.
pub open spec fn step_matches(t: &Vec<Token>, p: usize, spec: Parsed, r: Result<(Node, usize), ParseError>) -> bool {
    &&& r matches Ok((n, q)) ==> spec == Ok::<(Tree, int), ParseError>((n@, q as int)) && p < q <= t.len()
        && n@.well_formed()
    &&& r matches Err(e) ==> spec == Err::<(Tree, int), ParseError>(e)
}

fn is_parenthesis(tok: &Token, c: char) -> (r: bool)
    ensures
        r == (tok@ == TokenView::Parenthesis(c)),
{
    match tok {
        Token::Parenthesis(d) => *d == c,
        _ => false,
    }
}

fn is_operator_token(tok: &Token, c: char) -> (r: bool)
    ensures
        r == (tok@ == TokenView::Operator(c)),
{
    match tok {
        Token::Operator(d) => *d == c,
        _ => false,
    }
}

fn additive_of(tok: &Token) -> (r: Option<char>)
    ensures
        r == additive(tok@),
{
    match tok {
        Token::Operator(c) => if *c == '+' || *c == '-' {
            Some(*c)
        } else {
            None
        },
        _ => None,
    }
}

fn multiplicative_of(tok: &Token) -> (r: Option<char>)
    ensures
        r == multiplicative(tok@),
{
    match tok {
        Token::Operator(c) => if *c == '*' || *c == '/' || *c == '%' {
            Some(*c)
        } else {
            None
        },
        _ => None,
    }
}

/// Recursive-descent parser of equations.
#[derive(Debug, Clone, Copy, PartialEq, Eq, Structural)]
pub struct Parser;

impl Parser {
    pub fn new() -> (r: Parser) {
        Parser
    }

    fn primary(&self, t: &Vec<Token>, p: usize) -> (r: Result<(Node, usize), ParseError>)
        requires
            p <= t.len(),
        ensures
            step_matches(t, p, parse_primary(views(t@), p as int), r),
        decreases t.len() - p, 0int,
    {
        if p >= t.len() {
            return Err(ParseError::UnexpectedEndOfInput);
        }
        assert(views(t@)[p as int] == t@[p as int]@);
        match &t[p] {
            Token::Number(d) => Ok((Node::operand(Operand::Rational(Rational(*d))), p + 1)),
            Token::Identifier(s) => Ok((Node::operand(Operand::Variable(Variable(s.clone()))), p + 1)),
            Token::Parenthesis(c) => {
                if *c == '(' {
                    match self.expression(t, p + 1) {
                        Ok((e, q)) => {
                            if q < t.len() && is_parenthesis(&t[q], ')') {
                                assert(views(t@)[q as int] == t@[q as int]@);
                                Ok((e, q + 1))
                            } else {
                                proof {
                                    if q < t.len() {
                                        assert(views(t@)[q as int] == t@[q as int]@);
                                    }
                                }
                                Err(ParseError::MissingParenthesis)
                            }
                        },
                        Err(e) => Err(e),
                    }
                } else {
                    Err(ParseError::UnexpectedToken)
                }
            },
            Token::Operator(c) => {
                if *c == '-' {
                    match self.factor(t, p + 1) {
                        Ok((e, q)) => Ok((Node::unary('-', e), q)),
                        Err(e) => Err(e),
                    }
                } else {
                    Err(ParseError::UnexpectedToken)
                }
            },
        }
    }

    fn factor(&self, t: &Vec<Token>, p: usize) -> (r: Result<(Node, usize), ParseError>)
        requires
            p <= t.len(),
        ensures
            step_matches(t, p, parse_factor(views(t@), p as int), r),
        decreases t.len() - p, 1int,
    {
        match self.primary(t, p) {
            Ok((l, q)) => {
                proof {
                    if q < t.len() {
                        assert(views(t@)[q as int] == t@[q as int]@);
                    }
                }
                if q < t.len() && is_operator_token(&t[q], '^') {
                    match self.factor(t, q + 1) {
                        Ok((r, q2)) => Ok((Node::binary('^', l, r), q2)),
                        Err(e) => Err(e),
                    }
                } else {
                    Ok((l, q))
                }
            },
            Err(e) => Err(e),
        }
    }

    fn term(&self, t: &Vec<Token>, p: usize) -> (r: Result<(Node, usize), ParseError>)
        requires
            p <= t.len(),
        ensures
            step_matches(t, p, parse_term(views(t@), p as int), r),
        decreases t.len() - p, 3int,
    {
        let ghost v = views(t@);
        let (mut acc, mut q) = match self.factor(t, p) {
            Ok(x) => x,
            Err(e) => {
                return Err(e);
            },
        };
        loop
            invariant
                p < q <= t.len(),
                v == views(t@),
                acc@.well_formed(),
                parse_term(v, p as int) == parse_term_rest(v, acc@, q as int),
            decreases t.len() - q,
        {
            if q >= t.len() {
                return Ok((acc, q));
            }
            assert(v[q as int] == t@[q as int]@);
            match multiplicative_of(&t[q]) {
                Some(op) => {
                    match self.factor(t, q + 1) {
                        Ok((r, q2)) => {
                            acc = Node::binary(op, acc, r);
                            q = q2;
                        },
                        Err(e) => {
                            return Err(e);
                        },
                    }
                },
                None => {
                    return Ok((acc, q));
                },
            }
        }
    }

    fn expression(&self, t: &Vec<Token>, p: usize) -> (r: Result<(Node, usize), ParseError>)
        requires
            p <= t.len(),
        ensures
            step_matches(t, p, parse_expression(views(t@), p as int), r),
        decreases t.len() - p, 5int,
    {
        let ghost v = views(t@);
        let (mut acc, mut q) = match self.term(t, p) {
            Ok(x) => x,
            Err(e) => {
                return Err(e);
            },
        };
        loop
            invariant
                p < q <= t.len(),
                v == views(t@),
                acc@.well_formed(),
                parse_expression(v, p as int) == parse_expression_rest(v, acc@, q as int),
            decreases t.len() - q,
        {
            if q >= t.len() {
                return Ok((acc, q));
            }
            assert(v[q as int] == t@[q as int]@);
            match additive_of(&t[q]) {
                Some(op) => {
                    match self.term(t, q + 1) {
                        Ok((r, q2)) => {
                            acc = Node::binary(op, acc, r);
                            q = q2;
                        },
                        Err(e) => {
                            return Err(e);
                        },
                    }
                },
                None => {
                    return Ok((acc, q));
                },
            }
        }
    }

    fn equation(&self, t: &Vec<Token>) -> (r: Result<Node, ParseError>)
        ensures
            r matches Ok(n) ==> parse_equation(views(t@)) == Ok::<Tree, ParseError>(n@) && n@.well_formed(),
            r matches Err(e) ==> parse_equation(views(t@)) == Err::<Tree, ParseError>(e),
    {
        match self.expression(t, 0) {
            Ok((l, q)) => {
                proof {
                    if q < t.len() {
                        assert(views(t@)[q as int] == t@[q as int]@);
                    }
                }
                if q < t.len() && is_operator_token(&t[q], '=') {
                    match self.expression(t, q + 1) {
                        Ok((r, q2)) => {
                            if q2 == t.len() {
                                Ok(Node::binary('-', l, r))
                            } else {
                                Err(ParseError::UnexpectedToken)
                            }
                        },
                        Err(e) => Err(e),
                    }
                } else {
                    Err(ParseError::MissingEquationOperator)
                }
            },
            Err(e) => Err(e),
        }
    }

    /// The tree of the equation `input`, `lhs = rhs` read as `lhs - rhs`.
    pub fn parse(&self, input: &str) -> (r: Result<Node, ParseError>)
        ensures
            r matches Ok(n) ==> parse_text(input@) == Ok::<Tree, ParseError>(n@) && n@.well_formed(),
            r matches Err(e) ==> parse_text(input@) == Err::<Tree, ParseError>(e),
    {
        let tokenizer = Tokenizer::new();
        match tokenizer.tokenize(input) {
            Ok(tokens) => self.equation(&tokens),
            Err(e) => Err(ParseError::Tokenize(e)),
        }
    }
}
} // verus!
