use computorv1::node::{get_id, Node, NodeKind, NodeObject, Operand, Rational, Variable};
use computorv1::number::Decimal;
use computorv1::parser::{ParseError, Parser};
use computorv1::tokenizer::TokenizeError;

fn number(n: u64) -> Node {
    Node::operand(Operand::Rational(Rational(Decimal::from_whole(n))))
}

fn variable(name: &str) -> Node {
    Node::operand(Operand::Variable(Variable(name.to_owned())))
}

#[test]
fn equation_becomes_difference() {
    let tree = Parser::new().parse("X = 1").unwrap();
    assert_eq!(tree, Node::binary('-', variable("X"), number(1)));
}

#[test]
fn product_binds_tighter_than_sum() {
    let tree = Parser::new().parse("1 + 2 * X = 0").unwrap();
    let expected = Node::binary(
        '-',
        Node::binary('+', number(1), Node::binary('*', number(2), variable("X"))),
        number(0),
    );
    assert_eq!(tree, expected);
}

#[test]
fn sums_associate_to_the_left() {
    let tree = Parser::new().parse("1 - 2 + 3 = 0").unwrap();
    let expected = Node::binary(
        '-',
        Node::binary('+', Node::binary('-', number(1), number(2)), number(3)),
        number(0),
    );
    assert_eq!(tree, expected);
}

#[test]
fn power_associates_to_the_right() {
    let tree = Parser::new().parse("X ^ 2 ^ 3 = 0").unwrap();
    let expected = Node::binary(
        '-',
        Node::binary('^', variable("X"), Node::binary('^', number(2), number(3))),
        number(0),
    );
    assert_eq!(tree, expected);
}

#[test]
fn unary_minus_and_parentheses() {
    let tree = Parser::new().parse("-(X) = 2").unwrap();
    assert_eq!(tree, Node::binary('-', Node::unary('-', variable("X")), number(2)));
}

#[test]
fn parsing_twice_gives_the_same_tree() {
    let parser = Parser::new();
    let text = "5 * X^0 + 4 * X^1 - 9.3 * X^2 = 1 * X^0";
    assert_eq!(parser.parse(text), parser.parse(text));
}

#[test]
fn parse_errors() {
    let parser = Parser::new();
    assert_eq!(parser.parse("5 * X^1").err(), Some(ParseError::MissingEquationOperator));
    assert_eq!(parser.parse("X = 1 = 2").err(), Some(ParseError::UnexpectedToken));
    assert_eq!(parser.parse("X = 1 )").err(), Some(ParseError::UnexpectedToken));
    assert_eq!(parser.parse("X = ").err(), Some(ParseError::UnexpectedEndOfInput));
    assert_eq!(parser.parse("* X = 1").err(), Some(ParseError::UnexpectedToken));
    assert_eq!(parser.parse("(X = 1").err(), Some(ParseError::MissingParenthesis));
    assert_eq!(
        parser.parse("X # 1").err(),
        Some(ParseError::Tokenize(TokenizeError::UnexpectedCharacter('#')))
    );
}

#[test]
fn ids_are_handed_out_in_order() {
    let mut counter: usize = 1;
    assert_eq!(get_id(&mut counter), 1);
    assert_eq!(get_id(&mut counter), 2);
    assert_eq!(counter, 3);
}

#[test]
fn export_numbers_nodes_depth_first() {
    let tree = Parser::new().parse("2 * X = 9.5").unwrap();
    assert_eq!(tree.node_count(), Some(5));
    let mut counter: usize = 1;
    let mut nodes = Vec::new();
    let mut edges = Vec::new();
    let root = tree.export(&mut counter, &mut nodes, &mut edges);
    assert_eq!(root, 1);
    assert_eq!(counter, 6);
    let labels: Vec<(usize, String)> = nodes.iter().map(|n| (n.id, n.label.clone())).collect();
    assert_eq!(
        labels,
        vec![
            (1, "-".to_owned()),
            (2, "*".to_owned()),
            (3, "2".to_owned()),
            (4, "X".to_owned()),
            (5, "9.5".to_owned()),
        ]
    );
    assert_eq!(nodes[0].kind, NodeKind::Operator('-'));
    assert_eq!(nodes[2].kind, NodeKind::Number);
    assert_eq!(nodes[3].kind, NodeKind::Variable);
    assert_eq!(edges, vec![(2, 3), (2, 4), (1, 2), (1, 5)]);
}

#[test]
fn node_new_keeps_its_parts() {
    let node = Node::new(NodeObject::Operator('+'), Some(Box::new(number(1))), None);
    assert_eq!(node.object, NodeObject::Operator('+'));
    assert!(node.right.is_none());
}
