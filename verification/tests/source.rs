use arithmetic::ast::Ast;
use arithmetic::parser::{parse, parse_bytes};
use arithmetic::source::{write_numeral, write_source, FACTOR, PRODUCT, SUM};

fn n(v: i64) -> Box<Ast> {
    Box::new(Ast::Num(v))
}

fn text(t: &Ast) -> String {
    String::from_utf8(t.to_source()).unwrap()
}

#[test]
fn source_of_a_number() {
    assert_eq!(text(&Ast::Num(0)), "0");
    assert_eq!(text(&Ast::Num(7)), "7");
    assert_eq!(text(&Ast::Num(1234567890)), "1234567890");
    assert_eq!(text(&Ast::Num(i64::MAX)), "9223372036854775807");
}

#[test]
fn source_of_a_number_below_zero() {
    assert_eq!(text(&Ast::Num(-5)), "-5");
    assert_eq!(text(&Ast::Num(i64::MIN)), "-9223372036854775808");
}

#[test]
fn source_has_parentheses_where_needed() {
    let right_heavy = Ast::Sub(n(1), Box::new(Ast::Sub(n(2), n(3))));
    assert_eq!(text(&right_heavy), "1-(2-3)");
    let left_heavy = Ast::Sub(Box::new(Ast::Sub(n(1), n(2))), n(3));
    assert_eq!(text(&left_heavy), "1-2-3");
    let sum_in_product = Ast::Mul(Box::new(Ast::Add(n(2), n(3))), n(4));
    assert_eq!(text(&sum_in_product), "(2+3)*4");
    let product_in_sum = Ast::Add(n(2), Box::new(Ast::Mul(n(3), n(4))));
    assert_eq!(text(&product_in_sum), "2+3*4");
    let divisions = Ast::Div(n(8), Box::new(Ast::Div(n(4), n(2))));
    assert_eq!(text(&divisions), "8/(4/2)");
    let negated_sum = Ast::Neg(Box::new(Ast::Add(n(1), n(2))));
    assert_eq!(text(&negated_sum), "-(1+2)");
    let negated_twice = Ast::Neg(Box::new(Ast::Neg(n(1))));
    assert_eq!(text(&negated_twice), "--1");
}

#[test]
fn source_at_each_level() {
    let sum = Ast::Add(n(1), n(2));
    let mut out = Vec::new();
    write_source(&sum, SUM, &mut out);
    out.push(b' ');
    write_source(&sum, PRODUCT, &mut out);
    out.push(b' ');
    write_source(&sum, FACTOR, &mut out);
    assert_eq!(out, b"1+2 (1+2) (1+2)");
    let product = Ast::Mul(n(1), n(2));
    let mut out = Vec::new();
    write_source(&product, SUM, &mut out);
    out.push(b' ');
    write_source(&product, PRODUCT, &mut out);
    out.push(b' ');
    write_source(&product, FACTOR, &mut out);
    assert_eq!(out, b"1*2 1*2 (1*2)");
}

#[test]
fn numeral_is_appended() {
    let mut out = vec![b'x'];
    write_numeral(0, &mut out);
    write_numeral(10, &mut out);
    write_numeral(u64::MAX, &mut out);
    assert_eq!(out, b"x01018446744073709551615");
}

#[test]
fn associativity_survives_the_round_trip() {
    for line in ["8/4/2", "8/(4/2)", "1-2-3", "1-(2-3)", "2+3*4", "2*3+4", "(2+3)*4", "2*(3+4)"] {
        let tree = parse(line).unwrap();
        let again = parse_bytes(&tree.to_source()).unwrap();
        assert_eq!(again, tree);
        assert_eq!(text(&tree), line);
    }
}

#[test]
fn trees_are_read_back() {
    let trees = [
        Ast::Num(0),
        Ast::Neg(n(3)),
        Ast::Neg(Box::new(Ast::Neg(Box::new(Ast::Mul(n(1), n(2)))))),
        Ast::Add(Box::new(Ast::Sub(n(1), n(2))), Box::new(Ast::Div(n(3), Box::new(Ast::Add(n(4), n(5)))))),
        Ast::Div(Box::new(Ast::Neg(Box::new(Ast::Sub(n(1), n(2))))), Box::new(Ast::Neg(n(0)))),
        Ast::Mul(Box::new(Ast::Mul(n(1), Box::new(Ast::Mul(n(2), n(3))))), n(i64::MAX)),
    ];
    for tree in trees {
        assert_eq!(parse_bytes(&tree.to_source()), Ok(tree));
    }
}

#[test]
fn number_below_zero_is_read_back_as_a_negation() {
    let tree = Ast::Sub(n(1), n(-5));
    assert_eq!(text(&tree), "1--5");
    assert_eq!(parse("1--5"), Ok(Ast::Sub(n(1), Box::new(Ast::Neg(n(5))))));
}

#[test]
fn blanks_and_needless_parentheses_are_not_kept() {
    let tree = parse(" ( (1) + 2 ) ").unwrap();
    assert_eq!(text(&tree), "1+2");
}
