use computorv1::number::Decimal;
use computorv1::parser::Parser;
use computorv1::polynomial::{ExtractError, Polynomial, Term};
use computorv1::solver::{Solution, SolveError};

fn term(negative: bool, coefficient: u64, exponent: u64) -> Term {
    Term {
        is_sign_negative: negative,
        coefficient: Some(Decimal::from_whole(coefficient)),
        operator: Some('*'),
        identifier: Some("X".to_owned()),
        exponent: Some(Decimal::from_whole(exponent)),
    }
}

fn polynomial_of(text: &str) -> Result<Polynomial, ExtractError> {
    Polynomial::from_tree(&Parser::new().parse(text).unwrap())
}

fn reduced_of(text: &str) -> Polynomial {
    let mut p = polynomial_of(text).unwrap();
    p.reduce();
    p
}

#[test]
fn term_of_product_merges_fields() {
    let p = polynomial_of("9.3 * X^2 = 0").unwrap();
    assert_eq!(p.0[0], Term {
        is_sign_negative: false,
        coefficient: Some(Decimal::from_units(9_300_000_000)),
        operator: Some('*'),
        identifier: Some("X".to_owned()),
        exponent: Some(Decimal::from_whole(2)),
    });
    assert_eq!(p.0[0].to_text(), "9.3 * X^2");
}

#[test]
fn first_term_after_minus_turns_over() {
    let p = polynomial_of("1 * X^0 - 2 * X^1 - 3 * X^2 = 4 * X^0").unwrap();
    let signs: Vec<bool> = p.0.iter().map(|t| t.is_sign_negative).collect();
    assert_eq!(signs, vec![false, true, true, true]);
}

#[test]
fn unary_minus_turns_the_sign() {
    let p = polynomial_of("-X = 0").unwrap();
    assert!(p.0[0].is_sign_negative);
    assert_eq!(p.0[0].coefficient, None);
}

#[test]
fn extraction_errors() {
    assert_eq!(polynomial_of("X ^ X = 0").err(), Some(ExtractError::UnsupportedExponentShape));
    assert_eq!(polynomial_of("2 * 3 = 0").err(), Some(ExtractError::CoefficientProduct));
    assert_eq!(polynomial_of("2 * (X + 1) = 0").err(), Some(ExtractError::UnsupportedTermShape));
}

#[test]
fn reduce_sorts_and_combines() {
    let p = reduced_of("3 * X^2 + 1 * X^0 + 2 * X^2 = 4 * X^0");
    assert_eq!(p.to_text(), "- 3 * X^0 + 5 * X^2 ");
}

#[test]
fn reduce_twice_changes_nothing() {
    let mut p = reduced_of("3 * X^2 + 1 * X^0 + 2 * X^2 + 7 * X^2 - 4 * X^1 = 4 * X^0");
    let once = p.clone();
    p.reduce();
    assert_eq!(p, once);
}

#[test]
fn opposite_terms_cancel() {
    let mut p = Polynomial::new(vec![term(false, 3, 1), term(true, 3, 1)]);
    p.reduce();
    assert_eq!(p.0, Vec::<Term>::new());
}

#[test]
fn equal_sum_of_unlike_operators_stays_as_zero() {
    let mut a = term(false, 3, 1);
    a.operator = None;
    let mut p = Polynomial::new(vec![a, term(true, 3, 1)]);
    p.reduce();
    assert_eq!(p.0.len(), 1);
    assert_eq!(p.0[0].coefficient, Some(Decimal::from_whole(0)));
    assert_eq!(p.0[0].operator, None);
    assert_eq!(p.to_text(), "0 X^1 ");
}

#[test]
fn degree_never_rises_on_reduce() {
    let mut p = Polynomial::new(vec![term(false, 1, 0), term(false, 2, 3), term(true, 2, 3)]);
    assert_eq!(p.degree(), 3);
    p.reduce();
    assert_eq!(p.degree(), 0);
    let mut q = Polynomial::new(vec![term(false, 1, 0), term(false, 2, 3), term(false, 1, 2)]);
    q.reduce();
    assert_eq!(q.degree(), 3);
}

#[test]
fn degree_truncates_and_empty_is_zero() {
    assert_eq!(Polynomial::new(vec![]).degree(), 0);
    let mut t = term(false, 1, 0);
    t.exponent = Some(Decimal::from_units(2_500_000_000));
    assert_eq!(Polynomial::new(vec![t]).degree(), 2);
}

#[test]
fn limits_are_checked() {
    let big = Term {
        is_sign_negative: false,
        coefficient: Some(Decimal::from_units(u128::MAX)),
        operator: None,
        identifier: None,
        exponent: None,
    };
    assert!(!Polynomial::new(vec![big]).within_limits());
    assert!(Polynomial::new(vec![term(false, 1, 1)]).within_limits());
}

#[test]
fn solve_constant() {
    assert_eq!(reduced_of("5 = 5").solve(), Ok(Solution::Constant { holds: true }));
    assert_eq!(reduced_of("5 = 4").solve(), Ok(Solution::Constant { holds: false }));
}

#[test]
fn solve_linear() {
    assert_eq!(
        reduced_of("5 * X^0 + 4 * X^1 = 4 * X^0").solve(),
        Ok(Solution::Linear { numerator: -1_000_000_000, denominator: 4_000_000_000 })
    );
}

#[test]
fn solve_quadratic_outcomes() {
    assert_eq!(
        reduced_of("1 * X^2 - 2 * X^1 + 1 * X^0 = 0").solve(),
        Ok(Solution::OneRoot { a: 1_000_000_000, b: -2_000_000_000 })
    );
    assert_eq!(reduced_of("X^2 + 1 = 0").solve(), Ok(Solution::NoRealRoot));
    assert_eq!(
        reduced_of("1 * X^2 - 1 * X^0 = 0").solve(),
        Ok(Solution::TwoRoots {
            a: 1_000_000_000,
            b: 0,
            discriminant: 4_000_000_000_000_000_000,
        })
    );
}

#[test]
fn solve_errors() {
    assert_eq!(reduced_of("0 * X^1 = 1").solve(), Err(SolveError::DivisionByZeroRisk));
    assert_eq!(
        reduced_of("100000000000000000 * X^2 + 100000000000000000 * X^1 = 1").solve(),
        Err(SolveError::Overflow)
    );
}

#[test]
fn solve_reports_high_degree() {
    assert_eq!(reduced_of("X^4 = 1").solve(), Ok(Solution::UnsupportedDegree(4)));
}

#[test]
fn cancelling_pair_among_other_terms() {
    let p = reduced_of("1 * X^1 + 2 * X^0 - 1 * X^1 = 0");
    assert!(p.0.iter().all(|t| t.exponent != Some(Decimal::from_whole(1))));
    assert_eq!(p.to_text(), "- 0  + 2 * X^0 ");
}

#[test]
fn signed_coefficient_in_units() {
    assert_eq!(term(true, 3, 1).coefficient(), -3_000_000_000);
    let bare = Term {
        is_sign_negative: false,
        coefficient: None,
        operator: None,
        identifier: Some("X".to_owned()),
        exponent: None,
    };
    assert_eq!(bare.coefficient(), 1_000_000_000);
    assert_eq!(bare.to_text(), "X");
}

#[test]
fn term_sum_follows_signs() {
    let sum = term(true, 5, 2).add(term(false, 3, 2));
    assert!(sum.is_sign_negative);
    assert_eq!(sum.coefficient, Some(Decimal::from_whole(2)));
    assert!(term(false, 1, 0).key_less(&term(false, 1, 1)));
    assert!(term(false, 1, 1).same_key(&term(true, 4, 1)));
    assert!(term(false, 4, 1).cancels(&term(true, 4, 1)));
}

#[test]
fn cancelling_pair_leaves_other_terms_alone() {
    let mut with_pair = Polynomial::new(vec![
        term(false, 3, 1),
        term(false, 2, 0),
        term(true, 3, 1),
        term(false, 5, 2),
    ]);
    let mut without = Polynomial::new(vec![term(false, 2, 0), term(false, 5, 2)]);
    with_pair.reduce();
    without.reduce();
    assert_eq!(with_pair, without);
}
