use arithmetic::ast::Ast;
use arithmetic::error::SyntaxErrorKind;
use arithmetic::parser::{join_nodes, parse_atom, parse_factor, parse_product, parse_sum};
use arithmetic::text::{scan_number, skip_blanks};

fn n(v: i64) -> Box<Ast> {
    Box::new(Ast::Num(v))
}

#[test]
fn blanks_are_skipped() {
    assert_eq!(skip_blanks(b"   1", 0), 3);
    assert_eq!(skip_blanks(b"   1", 2), 3);
    assert_eq!(skip_blanks(b"   1", 3), 3);
    assert_eq!(skip_blanks(b"1   ", 1), 4);
    assert_eq!(skip_blanks(b"", 0), 0);
    assert_eq!(skip_blanks(b" \t 1", 0), 1);
}

#[test]
fn digits_are_scanned() {
    assert_eq!(scan_number(b"123+4", 0), Some((123, 3)));
    assert_eq!(scan_number(b"123+4", 1), Some((23, 3)));
    assert_eq!(scan_number(b"123+4", 4), Some((4, 5)));
    assert_eq!(scan_number(b"9223372036854775807", 0), Some((i64::MAX, 19)));
    assert_eq!(scan_number(b"9223372036854775808", 0), None);
    assert_eq!(scan_number(b"92233720368547758070", 0), None);
}

#[test]
fn nodes_are_joined_by_their_sign() {
    assert_eq!(join_nodes(b'+', Ast::Num(1), Ast::Num(2)), Ast::Add(n(1), n(2)));
    assert_eq!(join_nodes(b'-', Ast::Num(1), Ast::Num(2)), Ast::Sub(n(1), n(2)));
    assert_eq!(join_nodes(b'*', Ast::Num(1), Ast::Num(2)), Ast::Mul(n(1), n(2)));
    assert_eq!(join_nodes(b'/', Ast::Num(1), Ast::Num(2)), Ast::Div(n(1), n(2)));
}

#[test]
fn atom_stops_behind_itself() {
    assert_eq!(parse_atom(b"12*3", 0), Ok((Ast::Num(12), 2)));
    assert_eq!(parse_atom(b"( 1+2 ) *3", 0), Ok((Ast::Add(n(1), n(2)), 7)));
    let e = parse_atom(b"-1", 0).unwrap_err();
    assert_eq!(e.kind, SyntaxErrorKind::UnexpectedToken);
    assert_eq!(e.position, 0);
}

#[test]
fn factor_takes_the_signs_before_it() {
    assert_eq!(parse_factor(b"- -7+1", 0), Ok((Ast::Neg(Box::new(Ast::Neg(n(7)))), 4)));
    assert_eq!(parse_factor(b"7*2", 0), Ok((Ast::Num(7), 1)));
}

#[test]
fn product_stops_before_a_sum_sign() {
    assert_eq!(parse_product(b"2*3 + 4", 0), Ok((Ast::Mul(n(2), n(3)), 3)));
    assert_eq!(parse_product(b"2*3 + 4", 2), Ok((Ast::Num(3), 3)));
    let e = parse_product(b"2*", 0).unwrap_err();
    assert_eq!(e.kind, SyntaxErrorKind::UnexpectedToken);
    assert_eq!(e.position, 2);
}

#[test]
fn sum_stops_before_a_closing_parenthesis() {
    assert_eq!(parse_sum(b"1+2*3 )", 0), Ok((Ast::Add(n(1), Box::new(Ast::Mul(n(2), n(3)))), 5)));
    assert_eq!(parse_sum(b"1 2", 0), Ok((Ast::Num(1), 1)));
}
