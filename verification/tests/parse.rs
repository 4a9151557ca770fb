use arithmetic::ast::Ast;
use arithmetic::error::{SyntaxError, SyntaxErrorKind};
use arithmetic::parser::{parse, parse_bytes};

fn num(v: i64) -> Ast {
    Ast::Num(v)
}

fn neg(a: Ast) -> Ast {
    Ast::Neg(Box::new(a))
}

fn add(l: Ast, r: Ast) -> Ast {
    Ast::Add(Box::new(l), Box::new(r))
}

fn sub(l: Ast, r: Ast) -> Ast {
    Ast::Sub(Box::new(l), Box::new(r))
}

fn mul(l: Ast, r: Ast) -> Ast {
    Ast::Mul(Box::new(l), Box::new(r))
}

fn div(l: Ast, r: Ast) -> Ast {
    Ast::Div(Box::new(l), Box::new(r))
}

fn only_error(input: &str) -> SyntaxError {
    let errors = parse(input).unwrap_err();
    assert_eq!(errors.len(), 1);
    errors[0]
}

#[test]
fn digits_are_a_number() {
    assert_eq!(parse("42"), Ok(num(42)));
    assert_eq!(parse("0"), Ok(num(0)));
    assert_eq!(parse("1234567890"), Ok(num(1234567890)));
}

#[test]
fn leading_zeros_are_digits_too() {
    assert_eq!(parse("007"), Ok(num(7)));
    assert_eq!(parse("000"), Ok(num(0)));
}

#[test]
fn largest_number() {
    assert_eq!(parse("9223372036854775807"), Ok(num(i64::MAX)));
    assert_eq!(parse("0009223372036854775807"), Ok(num(i64::MAX)));
}

#[test]
fn number_out_of_range_is_an_error() {
    let e = only_error("9223372036854775808");
    assert_eq!(e.kind, SyntaxErrorKind::MalformedInteger);
    assert_eq!(e.position, 0);
    assert_eq!(e.found, Some(b'9'));
    let e = only_error("1 + 99999999999999999999999999");
    assert_eq!(e.kind, SyntaxErrorKind::MalformedInteger);
    assert_eq!(e.position, 4);
    assert_eq!(e.found, Some(b'9'));
}

#[test]
fn smallest_i64_cannot_be_written() {
    let e = only_error("-9223372036854775808");
    assert_eq!(e.kind, SyntaxErrorKind::MalformedInteger);
    assert_eq!(e.position, 1);
}

#[test]
fn minus_before_digits_is_a_negation() {
    assert_eq!(parse("-5"), Ok(neg(num(5))));
    assert_eq!(parse("- 5"), Ok(neg(num(5))));
    assert_eq!(parse("-9223372036854775807"), Ok(neg(num(i64::MAX))));
}

#[test]
fn negation_nests() {
    assert_eq!(parse("--5"), Ok(neg(neg(num(5)))));
    assert_eq!(parse("- - -5"), Ok(neg(neg(neg(num(5))))));
    assert_eq!(parse("-(1+2)"), Ok(neg(add(num(1), num(2)))));
    assert_eq!(parse("--(1+2)"), Ok(neg(neg(add(num(1), num(2))))));
}

#[test]
fn negation_binds_tighter_than_any_operator() {
    assert_eq!(parse("-1+2"), Ok(add(neg(num(1)), num(2))));
    assert_eq!(parse("-1*2"), Ok(mul(neg(num(1)), num(2))));
    assert_eq!(parse("1--2"), Ok(sub(num(1), neg(num(2)))));
    assert_eq!(parse("1*-2"), Ok(mul(num(1), neg(num(2)))));
    assert_eq!(parse("2/-(3)"), Ok(div(num(2), neg(num(3)))));
}

#[test]
fn division_groups_from_the_left() {
    assert_eq!(parse("8/4/2"), Ok(div(div(num(8), num(4)), num(2))));
    assert_ne!(parse("8/4/2"), Ok(div(num(8), div(num(4), num(2)))));
}

#[test]
fn mixed_operators_group_from_the_left() {
    assert_eq!(parse("1-2+3"), Ok(add(sub(num(1), num(2)), num(3))));
    assert_eq!(parse("1-2-3"), Ok(sub(sub(num(1), num(2)), num(3))));
    assert_eq!(parse("2*3/4"), Ok(div(mul(num(2), num(3)), num(4))));
    assert_eq!(parse("2/3*4"), Ok(mul(div(num(2), num(3)), num(4))));
}

#[test]
fn products_bind_tighter_than_sums() {
    assert_eq!(parse("2+3*4"), Ok(add(num(2), mul(num(3), num(4)))));
    assert_eq!(parse("2*3+4"), Ok(add(mul(num(2), num(3)), num(4))));
    assert_eq!(parse("1+2*3-4/5"), Ok(sub(add(num(1), mul(num(2), num(3))), div(num(4), num(5)))));
}

#[test]
fn parentheses_override_precedence() {
    assert_eq!(parse("(2+3)*4"), Ok(mul(add(num(2), num(3)), num(4))));
    assert_eq!(parse("2*(3+4)"), Ok(mul(num(2), add(num(3), num(4)))));
    assert_eq!(parse("8/(4/2)"), Ok(div(num(8), div(num(4), num(2)))));
    assert_eq!(parse("((((7))))"), Ok(num(7)));
}

#[test]
fn blanks_do_not_matter() {
    assert_eq!(parse("1 +   2"), parse("1+2"));
    assert_eq!(parse("1 +   2"), Ok(add(num(1), num(2))));
    assert_eq!(parse("  ( 1 + 2 ) * 3  "), Ok(mul(add(num(1), num(2)), num(3))));
    assert_eq!(parse(" 1 "), Ok(num(1)));
}

#[test]
fn blanks_inside_a_number_split_it() {
    let e = only_error("1 2");
    assert_eq!(e.kind, SyntaxErrorKind::TrailingInput);
    assert_eq!(e.position, 2);
    assert_eq!(e.found, Some(b'2'));
}

#[test]
fn only_the_space_is_a_blank() {
    let e = only_error("1\t+2");
    assert_eq!(e.kind, SyntaxErrorKind::TrailingInput);
    assert_eq!(e.position, 1);
    assert_eq!(e.found, Some(b'\t'));
}

#[test]
fn division_by_zero_is_syntax() {
    assert_eq!(parse("1/0"), Ok(div(num(1), num(0))));
}

#[test]
fn missing_operand_is_an_error() {
    let e = only_error("1+");
    assert_eq!(e.kind, SyntaxErrorKind::UnexpectedToken);
    assert_eq!(e.position, 2);
    assert_eq!(e.found, None);
    let e = only_error("1 + * 2");
    assert_eq!(e.kind, SyntaxErrorKind::UnexpectedToken);
    assert_eq!(e.position, 4);
    assert_eq!(e.found, Some(b'*'));
}

#[test]
fn missing_closing_parenthesis_is_an_error() {
    let e = only_error("(1+2");
    assert_eq!(e.kind, SyntaxErrorKind::MissingClosingParen);
    assert_eq!(e.position, 4);
    assert_eq!(e.found, None);
    let e = only_error("(1 2)");
    assert_eq!(e.kind, SyntaxErrorKind::MissingClosingParen);
    assert_eq!(e.position, 3);
    assert_eq!(e.found, Some(b'2'));
}

#[test]
fn letters_are_an_error() {
    let e = only_error("abc");
    assert_eq!(e.kind, SyntaxErrorKind::UnexpectedToken);
    assert_eq!(e.position, 0);
    assert_eq!(e.found, Some(b'a'));
}

#[test]
fn malformed_lines_give_errors_and_no_tree() {
    for line in ["1+", "(1+2", "1 2", "abc"] {
        match parse(line) {
            Ok(tree) => panic!("{:?} was read as {:?}", line, tree),
            Err(errors) => assert!(!errors.is_empty()),
        }
    }
}

#[test]
fn empty_line_is_an_error() {
    let e = only_error("");
    assert_eq!(e.kind, SyntaxErrorKind::UnexpectedToken);
    assert_eq!(e.position, 0);
    assert_eq!(e.found, None);
    let e = only_error("   ");
    assert_eq!(e.kind, SyntaxErrorKind::UnexpectedToken);
    assert_eq!(e.position, 3);
}

#[test]
fn stray_closing_parenthesis_is_an_error() {
    let e = only_error(")");
    assert_eq!(e.kind, SyntaxErrorKind::UnexpectedToken);
    assert_eq!(e.position, 0);
    let e = only_error("1)");
    assert_eq!(e.kind, SyntaxErrorKind::TrailingInput);
    assert_eq!(e.position, 1);
    let e = only_error("()");
    assert_eq!(e.kind, SyntaxErrorKind::UnexpectedToken);
    assert_eq!(e.position, 1);
    assert_eq!(e.found, Some(b')'));
}

#[test]
fn bytes_beyond_ascii_are_an_error() {
    let e = only_error("1+\u{e9}");
    assert_eq!(e.kind, SyntaxErrorKind::UnexpectedToken);
    assert_eq!(e.position, 2);
    assert_eq!(e.found, Some(0xc3));
}

#[test]
fn the_first_error_is_reported() {
    let e = only_error("(1 + ) + (");
    assert_eq!(e.kind, SyntaxErrorKind::UnexpectedToken);
    assert_eq!(e.position, 5);
}

#[test]
fn bytes_parse_as_the_text_does() {
    assert_eq!(parse_bytes(b"2+3*4"), Ok(add(num(2), mul(num(3), num(4)))));
    let e = parse_bytes(b"2+").unwrap_err();
    assert_eq!(e, SyntaxError { position: 2, kind: SyntaxErrorKind::UnexpectedToken, found: None });
    let e = parse_bytes(&[0x31, 0xff]).unwrap_err();
    assert_eq!(e, SyntaxError { position: 1, kind: SyntaxErrorKind::TrailingInput, found: Some(0xff) });
}

#[test]
fn messages_tell_where_and_what() {
    assert_eq!(
        only_error("abc").message(),
        "syntax error at byte 0: expected a number, '-' or '(', found byte 97"
    );
    assert_eq!(
        only_error("1+").message(),
        "syntax error at byte 2: expected a number, '-' or '(', found the end of the line"
    );
    assert_eq!(
        only_error("(1+2").message(),
        "syntax error at byte 4: expected an operator or ')', found the end of the line"
    );
    assert_eq!(
        only_error("1 2").message(),
        "syntax error at byte 2: expected an operator or the end of the line, found '2'"
    );
    assert_eq!(
        only_error("(1 + 2) * (3 + )").message(),
        "syntax error at byte 15: expected a number, '-' or '(', found ')'"
    );
    assert_eq!(
        only_error("1 + 99999999999999999999").message(),
        "syntax error at byte 4: expected a number of at most 9223372036854775807, found '9'"
    );
    assert_eq!(
        only_error("2 * * 3").message(),
        "syntax error at byte 4: expected a number, '-' or '(', found '*'"
    );
}

#[test]
fn message_counts_bytes_in_decimal() {
    let line = format!("{}x", " ".repeat(1234));
    assert_eq!(
        only_error(&line).message(),
        "syntax error at byte 1234: expected a number, '-' or '(', found byte 120"
    );
}

#[test]
fn kinds_say_what_was_expected() {
    assert_eq!(SyntaxErrorKind::UnexpectedToken.expected(), "expected a number, '-' or '('");
    assert_eq!(SyntaxErrorKind::MissingClosingParen.expected(), "expected an operator or ')'");
    assert_eq!(
        SyntaxErrorKind::MalformedInteger.expected(),
        "expected a number of at most 9223372036854775807"
    );
    assert_eq!(
        SyntaxErrorKind::TrailingInput.expected(),
        "expected an operator or the end of the line"
    );
}

#[test]
fn error_is_made_from_the_line() {
    let e = SyntaxError::at(b"1+x", 2, SyntaxErrorKind::UnexpectedToken);
    assert_eq!(e, SyntaxError { position: 2, kind: SyntaxErrorKind::UnexpectedToken, found: Some(b'x') });
    let e = SyntaxError::at(b"1+", 2, SyntaxErrorKind::UnexpectedToken);
    assert_eq!(e, SyntaxError { position: 2, kind: SyntaxErrorKind::UnexpectedToken, found: None });
}

#[test]
fn trees_are_cloned_whole() {
    let tree = parse("-(1+2)*3/4-5").unwrap();
    assert_eq!(tree.clone(), tree);
}
