use computorv1::parser::{ParseError, Parser};
use computorv1::polynomial::Polynomial;
use computorv1::solver::Solution;

/// The text that the program prints for `input`.
fn run(input: &str) -> String {
    let parser = Parser::new();
    let tree = parser.parse(input).unwrap();
    let mut polynomial = Polynomial::from_tree(&tree).unwrap();
    assert!(polynomial.within_limits());
    polynomial.reduce();
    let degree = polynomial.degree();
    let mut out = format!(
        "Reduced form: {}= 0\nPolynomial degree: {}\n",
        polynomial.to_text(),
        degree
    );
    match polynomial.solve().unwrap() {
        Solution::TwoRoots { a, b, discriminant } => {
            let (a, b, d) = (a as f64, b as f64, discriminant as f64);
            out += &format!(
                "Discriminant is strictly positive, the two solutions are:\n{:.6}\n{:.6}\n",
                (-b - d.sqrt()) / (2.0 * a),
                (-b + d.sqrt()) / (2.0 * a)
            );
        }
        Solution::OneRoot { a, b } => {
            out += &format!("The solution is:\n{:.6}\n", -(b as f64) / (2.0 * a as f64));
        }
        Solution::Linear { numerator, denominator } => {
            out += &format!("The solution is:\n{:.6}\n", numerator as f64 / denominator as f64);
        }
        Solution::UnsupportedDegree(_) => {
            out += "The polynomial degree is strictly greater than 2, I can't solve.\n";
        }
        other => panic!("unexpected outcome {:?}", other),
    }
    out
}

#[test]
fn subject_example1() {
    let output = "Reduced form: 4 * X^0 + 4 * X^1 - 9.3 * X^2 = 0
Polynomial degree: 2
Discriminant is strictly positive, the two solutions are:
0.905239
-0.475131
";
    assert_eq!(run("5 * X^0 + 4 * X^1 - 9.3 * X^2 = 1 * X^0"), output);
}

#[test]
fn subject_example2() {
    let output = "Reduced form: 1 * X^0 + 4 * X^1 = 0
Polynomial degree: 1
The solution is:
-0.250000
";
    assert_eq!(run("5 * X^0 + 4 * X^1 = 4 * X^0"), output);
}

#[test]
fn subject_example3() {
    let output = "Reduced form: 5 * X^0 - 6 * X^1 + 0 * X^2 - 5.6 * X^3 = 0
Polynomial degree: 3
The polynomial degree is strictly greater than 2, I can't solve.
";
    assert_eq!(run("8 * X^0 - 6 * X^1 + 0 * X^2 - 5.6 * X^3 = 3 * X^0"), output);
}

#[test]
fn subject_free_form_example1() {
    let output = "Reduced form: 4 * X^0 + 4 * X^1 - 9.3 * X^2 = 0
Polynomial degree: 2
Discriminant is strictly positive, the two solutions are:
0.905239
-0.475131
";
    assert_eq!(run("5*X^0+4*X^1-9.3*X^2=1*X^0"), output);
}

#[test]
fn subject_free_form_example2() {
    let output = "Reduced form: 1 * X^0 + 4 * X^1 = 0
Polynomial degree: 1
The solution is:
-0.250000
";
    assert_eq!(run("5*X^0+4*X^1=4*X^0"), output);
}

#[test]
fn subject_free_form_example3() {
    let output = "Reduced form: 5 * X^0 - 6 * X^1 + 0 * X^2 - 5.6 * X^3 = 0
Polynomial degree: 3
The polynomial degree is strictly greater than 2, I can't solve.
";
    assert_eq!(run("8*X^0-6*X^1+0*X^2-5.6*X^3=3*X^0"), output);
}

#[test]
fn whitespace_free_input_matches_spaced_input() {
    assert_eq!(run("5*X^0+4*X^1=4*X^0"), run("5 * X^0 + 4 * X^1 = 4 * X^0"));
}

#[test]
fn unmatched_parenthesis_fails() {
    let parser = Parser::new();
    assert_eq!(parser.parse("(5 * X^0 + 4 * X^1 = 4 * X^0").err(), Some(ParseError::MissingParenthesis));
}
