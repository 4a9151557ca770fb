use arithmetic::ast::Ast;
use arithmetic::error::SyntaxErrorKind;
use arithmetic::parser::parse;

fn negated(t: Ast) -> Ast {
    Ast::Neg(Box::new(t))
}

fn between_digits(line: &str, k: usize) -> bool {
    let bytes = line.as_bytes();
    0 < k && k < bytes.len() && bytes[k - 1].is_ascii_digit() && bytes[k].is_ascii_digit()
}

#[test]
fn minus_before_a_factor_negates_it() {
    for factor in ["5", "007", "(1+2)", "-3", "--3", "( 4 * 5 )", "-(6)"] {
        let tree = parse(factor).unwrap();
        assert_eq!(parse(&format!("-{}", factor)), Ok(negated(tree.clone())));
        assert_eq!(parse(&format!("--{}", factor)), Ok(negated(negated(tree))));
    }
}

#[test]
fn minus_before_a_sum_negates_its_first_operand_only() {
    let tree = parse("1+2").unwrap();
    assert_ne!(parse("-1+2"), Ok(negated(tree)));
    assert_eq!(
        parse("-1+2"),
        Ok(Ast::Add(Box::new(negated(Ast::Num(1))), Box::new(Ast::Num(2))))
    );
}

#[test]
fn minus_before_parentheses_negates_the_line_in_them() {
    for line in ["1+2", " 1 - 2 * 3 ", "7", "-7", "(1)", "1/2/3"] {
        let tree = parse(line).unwrap();
        assert_eq!(parse(&format!("-({})", line)), Ok(negated(tree.clone())));
        assert_eq!(parse(&format!("--({})", line)), Ok(negated(negated(tree))));
    }
}

#[test]
fn one_more_blank_changes_nothing() {
    for line in ["-(12+3)*4/(5-600)", "1", " 1 + 2 ", "--1--2", "((10))"] {
        let tree = parse(line).unwrap();
        for k in 0..=line.len() {
            if between_digits(line, k) {
                continue;
            }
            let mut spaced = String::from(&line[..k]);
            spaced.push(' ');
            spaced.push_str(&line[k..]);
            assert_eq!(parse(&spaced), Ok(tree.clone()), "blank at {} of {:?}", k, line);
        }
    }
}

#[test]
fn a_blank_between_digits_splits_the_number() {
    assert_eq!(parse("12"), Ok(Ast::Num(12)));
    let errors = parse("1 2").unwrap_err();
    assert_eq!(errors[0].kind, SyntaxErrorKind::TrailingInput);
    assert_eq!(parse("(34)*5"), Ok(Ast::Mul(Box::new(Ast::Num(34)), Box::new(Ast::Num(5)))));
    let errors = parse("(3 4)*5").unwrap_err();
    assert_eq!(errors[0].kind, SyntaxErrorKind::MissingClosingParen);
    assert_eq!(errors[0].position, 3);
}

#[test]
fn one_blank_less_changes_nothing() {
    for line in [" - ( 12 + 3 ) * 4 / ( 5 - 600 ) ", "  1  ", "1 +  2", "- - 1 - - 2"] {
        let tree = parse(line).unwrap();
        for k in 0..line.len() {
            if line.as_bytes()[k] != b' ' {
                continue;
            }
            let mut closed = String::from(&line[..k]);
            closed.push_str(&line[k + 1..]);
            assert_eq!(parse(&closed), Ok(tree.clone()), "blank {} of {:?}", k, line);
        }
    }
}

#[test]
fn no_tree_holds_a_number_below_zero() {
    assert_eq!(parse("-5"), Ok(negated(Ast::Num(5))));
    assert_eq!(parse("0-5"), Ok(Ast::Sub(Box::new(Ast::Num(0)), Box::new(Ast::Num(5)))));
    assert_eq!(parse("(-5)"), Ok(negated(Ast::Num(5))));
}

#[test]
fn a_flaw_is_final() {
    for line in ["1+*", "(1+2]", "1 2", "abc", ")", "2*(3+)", "1+ 99999999999999999999"] {
        let errors = parse(line).unwrap_err();
        let flaw = errors[0];
        let rests_on = if flaw.kind == SyntaxErrorKind::MalformedInteger {
            line.len()
        } else {
            flaw.position + 1
        };
        for tail in ["", "0", " + 1", ")", "))) 7", "9", "x"] {
            let longer = format!("{}{}", &line[..rests_on], tail);
            let again = parse(&longer).unwrap_err();
            assert_eq!(again[0], flaw, "{:?}", longer);
        }
    }
}

#[test]
fn a_flaw_at_the_end_may_be_mended() {
    let errors = parse("1+").unwrap_err();
    assert_eq!(errors[0].position, 2);
    assert_eq!(errors[0].found, None);
    assert_eq!(parse("1+2"), Ok(Ast::Add(Box::new(Ast::Num(1)), Box::new(Ast::Num(2)))));
}

#[test]
fn up_to_its_flaw_a_line_is_good() {
    let cases = [
        ("1+*", "0"),
        ("(1+2]", ")"),
        ("1 2", ""),
        ("abc", "0"),
        ("((1+ ", "0))"),
        ("2*(3+)", "0)"),
        ("(1 + 2", ")"),
        ("1+ 99999999999999999999", "0"),
        ("", "0"),
    ];
    for (line, rest) in cases {
        let errors = parse(line).unwrap_err();
        let mended = format!("{}{}", &line[..errors[0].position], rest);
        assert!(parse(&mended).is_ok(), "{:?}", mended);
    }
}

#[test]
fn a_flaw_names_the_byte_at_its_position() {
    for line in ["1+*", "(1+2]", "1 2", "abc", ")", "2*(3+)", "1+", "(", "1+ 99999999999999999999"] {
        let flaw = parse(line).unwrap_err()[0];
        assert!(flaw.position <= line.len());
        assert_eq!(flaw.found, line.as_bytes().get(flaw.position).copied());
    }
}
