use vstd::prelude::*;

use crate::node::{LeafView, Node, NodeObject, Operand, Rational, Tree, Variable};
use crate::number::Decimal;

verus! {

/// One monomial `± coefficient · identifier^exponent`. An absent coefficient
/// stands for one and an absent exponent for zero; the coefficient is never
/// negative, the sign is held apart.
#[derive(Debug, Clone, PartialEq)]
pub struct Term {
    pub is_sign_negative: bool,
    pub coefficient: Option<Decimal>,
    pub operator: Option<char>,
    pub identifier: Option<String>,
    pub exponent: Option<Decimal>,
}

/// A term as the contracts see it, with numbers in units.
pub struct TermView {
    pub negative: bool,
    pub coefficient: Option<nat>,
    pub operator: Option<char>,
    pub identifier: Option<Seq<char>>,
    pub exponent: Option<nat>,
}

pub open spec fn units_of(d: Option<Decimal>) -> Option<nat> {
    match d {
        Some(x) => Some(x.units as nat),
        None => None,
    }
}

pub open spec fn text_of(s: Option<String>) -> Option<Seq<char>> {
    match s {
        Some(x) => Some(x@),
        None => None,
    }
}

impl View for Term {
    type V = TermView;

    open spec fn view(&self) -> TermView {
        TermView {
            negative: self.is_sign_negative,
            coefficient: units_of(self.coefficient),
            operator: self.operator,
            identifier: text_of(self.identifier),
            exponent: units_of(self.exponent),
        }
    }
}

/// Why a tree is not a sum of terms.
#[derive(Debug, Clone, Copy, PartialEq, Eq, Structural)]
pub enum ExtractError {
    /// The right side of `^` is not a number.
    UnsupportedExponentShape,
    /// A sum inside a product, or a node whose children do not fit it.
    UnsupportedTermShape,
    /// Both factors of a product carry a coefficient.
    CoefficientProduct,
}

pub open spec fn first_some<A>(a: Option<A>, b: Option<A>) -> Option<A> {
    if a is Some {
        a
    } else {
        b
    }
}

/// The term of a product of the terms `a` and `b`: each field taken from `a`
/// where it has one, else from `b`.
pub open spec fn merged(op: char, a: TermView, b: TermView) -> TermView {
    TermView {
        negative: a.negative != b.negative,
        coefficient: first_some(a.coefficient, b.coefficient),
        operator: Some(op),
        identifier: first_some(a.identifier, b.identifier),
        exponent: first_some(a.exponent, b.exponent),
    }
}

pub open spec fn negated(a: TermView) -> TermView {
    TermView { negative: !a.negative, ..a }
}

/// The term that a tree without sums stands for.
pub open spec fn term_of(t: Tree) -> Result<TermView, ExtractError>
    decreases t,
{
    match t {
        Tree::Leaf(LeafView::Number(d)) => Ok(
            TermView {
                negative: false,
                coefficient: Some(d.units as nat),
                operator: None,
                identifier: None,
                exponent: None,
            },
        ),
        Tree::Leaf(LeafView::Variable(s)) => Ok(
            TermView {
                negative: false,
                coefficient: None,
                operator: None,
                identifier: Some(s),
                exponent: None,
            },
        ),
        Tree::Unary(c, e) => if c == '-' {
            match term_of(*e) {
                Ok(x) => Ok(negated(x)),
                Err(err) => Err(err),
            }
        } else {
            Err(ExtractError::UnsupportedTermShape)
        },
        Tree::Binary(c, l, r) => if c == '^' {
            match term_of(*l) {
                Ok(x) => match *r {
                    Tree::Leaf(LeafView::Number(d)) => Ok(TermView { exponent: Some(d.units as nat), ..x }),
                    _ => Err(ExtractError::UnsupportedExponentShape),
                },
                Err(err) => Err(err),
            }
        } else if c == '*' || c == '/' || c == '%' {
            match term_of(*l) {
                Ok(a) => match term_of(*r) {
                    Ok(b) => if a.coefficient is Some && b.coefficient is Some {
                        Err(ExtractError::CoefficientProduct)
                    } else {
                        Ok(merged(c, a, b))
                    },
                    Err(err) => Err(err),
                },
                Err(err) => Err(err),
            }
        } else {
            Err(ExtractError::UnsupportedTermShape)
        },
        Tree::Malformed => Err(ExtractError::UnsupportedTermShape),
    }
}

/// `s` with the sign of its first term turned over.
pub open spec fn flip_first(s: Seq<TermView>) -> Seq<TermView> {
    if s.len() == 0 {
        s
    } else {
        s.update(0, negated(s[0]))
    }
}

/// The terms of a tree: sums and differences at the top are split, and the
/// first term after each minus has its sign turned over.
pub open spec fn terms_of(t: Tree) -> Result<Seq<TermView>, ExtractError>
    decreases t,
{
    match t {
        Tree::Binary(c, l, r) => if c == '+' || c == '-' {
            match terms_of(*l) {
                Ok(a) => match terms_of(*r) {
                    Ok(b) => Ok(
                        a + if c == '-' {
                            flip_first(b)
                        } else {
                            b
                        },
                    ),
                    Err(err) => Err(err),
                },
                Err(err) => Err(err),
            }
        } else {
            match term_of(t) {
                Ok(x) => Ok(seq![x]),
                Err(err) => Err(err),
            }
        },
        _ => match term_of(t) {
            Ok(x) => Ok(seq![x]),
            Err(err) => Err(err),
        },
    }
}

fn first_some_exec<A>(a: Option<A>, b: Option<A>) -> (r: Option<A>)
    ensures
        r == first_some(a, b),
{
    match a {
        Some(x) => Some(x),
        None => b,
    }
}

impl Term {
    /// The term of a leaf, or of a tree of products, powers and negations.
    pub fn from_node(node: &Node) -> (r: Result<Term, ExtractError>)
        ensures
            r matches Ok(x) ==> term_of(node@) == Ok::<TermView, ExtractError>(x@),
            r matches Err(e) ==> term_of(node@) == Err::<TermView, ExtractError>(e),
        decreases node,
    {
        match &node.object {
            NodeObject::Operand(o) => {
                if node.left.is_some() || node.right.is_some() {
                    return Err(ExtractError::UnsupportedTermShape);
                }
                match o {
                    Operand::Rational(Rational(d)) => Ok(
                        Term {
                            is_sign_negative: false,
                            coefficient: Some(*d),
                            operator: None,
                            identifier: None,
                            exponent: None,
                        },
                    ),
                    Operand::Variable(Variable(s)) => Ok(
                        Term {
                            is_sign_negative: false,
                            coefficient: None,
                            operator: None,
                            identifier: Some(s.clone()),
                            exponent: None,
                        },
                    ),
                }
            },
            NodeObject::Operator(c) => {
                let c = *c;
                match (&node.left, &node.right) {
                    (Some(l), None) => {
                        if c != '-' {
                            return Err(ExtractError::UnsupportedTermShape);
                        }
                        match Term::from_node(l) {
                            Ok(x) => Ok(Term { is_sign_negative: !x.is_sign_negative, ..x }),
                            Err(e) => Err(e),
                        }
                    },
                    (Some(l), Some(r)) => {
                        if c == '^' {
                            let x = match Term::from_node(l) {
                                Ok(x) => x,
                                Err(e) => {
                                    return Err(e);
                                },
                            };
                            match (&r.object, &r.left, &r.right) {
                                (NodeObject::Operand(Operand::Rational(Rational(d))), None, None) => {
                                    Ok(Term { exponent: Some(*d), ..x })
                                },
                                _ => Err(ExtractError::UnsupportedExponentShape),
                            }
                        } else if c == '*' || c == '/' || c == '%' {
                            let a = match Term::from_node(l) {
                                Ok(x) => x,
                                Err(e) => {
                                    return Err(e);
                                },
                            };
                            let b = match Term::from_node(r) {
                                Ok(x) => x,
                                Err(e) => {
                                    return Err(e);
                                },
                            };
                            if a.coefficient.is_some() && b.coefficient.is_some() {
                                return Err(ExtractError::CoefficientProduct);
                            }
                            Ok(
                                Term {
                                    is_sign_negative: a.is_sign_negative != b.is_sign_negative,
                                    coefficient: first_some_exec(a.coefficient, b.coefficient),
                                    operator: Some(c),
                                    identifier: first_some_exec(a.identifier, b.identifier),
                                    exponent: first_some_exec(a.exponent, b.exponent),
                                },
                            )
                        } else {
                            Err(ExtractError::UnsupportedTermShape)
                        }
                    },
                    _ => Err(ExtractError::UnsupportedTermShape),
                }
            },
        }
    }
}


/// A sum of terms, in order.
#[derive(Debug, Clone, PartialEq)]
pub struct Polynomial(pub Vec<Term>);

pub open spec fn term_views(ts: Seq<Term>) -> Seq<TermView> {
    ts.map_values(|t: Term| t@)
}

impl View for Polynomial {
    type V = Seq<TermView>;

    open spec fn view(&self) -> Seq<TermView> {
        term_views(self.0@)
    }
}

impl Polynomial {
    pub fn new(terms: Vec<Term>) -> (r: Polynomial)
        ensures
            r.0 == terms,
    {
        Polynomial(terms)
    }

    /// The terms of the tree `node`: sums and differences at the top are
    /// split, and the first term after each minus has its sign turned over.
    pub fn from_tree(node: &Node) -> (r: Result<Polynomial, ExtractError>)
        ensures
            r matches Ok(p) ==> terms_of(node@) == Ok::<Seq<TermView>, ExtractError>(p@),
            r matches Err(e) ==> terms_of(node@) == Err::<Seq<TermView>, ExtractError>(e),
        decreases node,
    {
        if let NodeObject::Operator(c) = &node.object {
            let c = *c;
            if c == '+' || c == '-' {
                if let (Some(l), Some(r)) = (&node.left, &node.right) {
                    let mut a = match Polynomial::from_tree(l) {
                        Ok(p) => p.0,
                        Err(e) => {
                            return Err(e);
                        },
                    };
                    let mut b = match Polynomial::from_tree(r) {
                        Ok(p) => p.0,
                        Err(e) => {
                            return Err(e);
                        },
                    };
                    let ghost va = term_views(a@);
                    let ghost vb = term_views(b@);
                    if c == '-' && b.len() > 0 {
                        let mut first = b.remove(0);
                        first.is_sign_negative = !first.is_sign_negative;
                        b.insert(0, first);
                        assert(term_views(b@) =~= flip_first(vb));
                    }
                    assert(c == '-' ==> term_views(b@) =~= flip_first(vb));
                    let ghost vb2 = term_views(b@);
                    a.append(&mut b);
                    assert(term_views(a@) =~= va + vb2);
                    return Ok(Polynomial(a));
                }
            }
        }
        match Term::from_node(node) {
            Ok(x) => {
                let v = vec![x];
                assert(term_views(v@) =~= seq![x@]);
                Ok(Polynomial(v))
            },
            Err(e) => Err(e),
        }
    }
}
} // verus!
