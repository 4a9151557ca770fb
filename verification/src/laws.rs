//! What holds of every line: laws of the grammar and of the reading.
use vstd::prelude::*;
use crate::agreement::{lemma_line_complete, lemma_line_sound};
use crate::ast::Ast;
use crate::error::{flaw, Flaw, SyntaxErrorKind};
use crate::grammar::{
    enclosed, is_atom, is_factor, is_line, is_numeral, is_sum, lemma_factor_ends,
    lemma_factor_is_sum, lemma_sum_ends, lemma_sum_is_line, negation,
};
use crate::moving::{lemma_blank_moves, lemma_factor_moves, lemma_sum_moves, same};
use crate::reading::{read_atom, read_factor, read_line, read_product, read_sum};
use crate::text::{
    all_blank, all_digits, blanks, decimal, digits, is_digit, lemma_digits_unique, CLOSE, MINUS,
    OPEN,
};

verus! {

/// No line writes two trees: the grammar is unambiguous.
pub proof fn law_one_tree(s: Seq<u8>, t1: Ast, t2: Ast)
    requires
        is_line(s, t1),
        is_line(s, t2),
    ensures
        t1 == t2,
{
    lemma_line_complete(s, t1);
    lemma_line_complete(s, t2);
}

/// A line is read as a tree exactly when it writes that tree.
pub proof fn law_read_what_is_written(s: Seq<u8>, t: Ast)
    ensures
        read_line(s) == Ok::<Ast, Flaw>(t) <==> is_line(s, t),
{
    if read_line(s) == Ok::<Ast, Flaw>(t) {
        lemma_line_sound(s, t);
    }
    if is_line(s, t) {
        lemma_line_complete(s, t);
    }
}

/// A line of digits and nothing else, which write a number that an `i64`
/// can hold, is read as that number.
pub proof fn law_digits_are_a_number(s: Seq<u8>)
    requires
        s.len() > 0,
        all_digits(s, 0, s.len() as int),
        decimal(s, 0, s.len() as int) <= i64::MAX,
    ensures
        read_line(s) == Ok::<Ast, Flaw>(Ast::Num(decimal(s, 0, s.len() as int) as i64)),
{
    let n = s.len() as int;
    let t = Ast::Num(decimal(s, 0, n) as i64);
    assert(is_numeral(s, 0, n, decimal(s, 0, n) as int));
    assert(is_atom(s, 0, n, t));
    lemma_factor_is_sum(s, 0, n, t);
    lemma_sum_is_line(s, 0, n, t);
    lemma_line_complete(s, t);
}

/// A line of digits and nothing else, which write a number above
/// `i64::MAX`, is refused at its first byte.
pub proof fn law_digits_out_of_range(s: Seq<u8>)
    requires
        s.len() > 0,
        all_digits(s, 0, s.len() as int),
        decimal(s, 0, s.len() as int) > i64::MAX,
    ensures
        read_line(s) == Err::<Ast, Flaw>(flaw(s, 0, SyntaxErrorKind::MalformedInteger)),
{
    assert(is_digit(s[0]));
    assert(blanks(s, 0) == 0);
    lemma_digits_unique(s, 0, s.len() as int);
    assert(read_atom(s, 0) == Err::<(Ast, nat), Flaw>(
        flaw(s, 0, SyntaxErrorKind::MalformedInteger),
    ));
    assert(read_factor(s, 0) == read_atom(s, 0));
    assert(read_product(s, 0) is Err);
    assert(read_sum(s, 0) is Err);
}

/// A `-` before a factor writes its negation.
pub proof fn lemma_negated_factor(a: Seq<u8>, t: Ast)
    requires
        is_factor(a, 0, a.len() as int, t),
    ensures
        is_factor(seq![MINUS] + a, 0, a.len() as int + 1, Ast::Neg(Box::new(t))),
{
    let s = seq![MINUS] + a;
    let n = a.len() as int;
    lemma_factor_ends(a, 0, n, t);
    assert(same(a, 0, s, 1, n));
    lemma_factor_moves(a, 0, s, 1, n, 0, n, t);
    assert(negation(s, 0, 1));
}

/// A `-` and then digits, which write a number that an `i64` can hold, are
/// read as the negation of that number: never as a number below zero.
pub proof fn law_minus_before_digits(a: Seq<u8>)
    requires
        a.len() > 0,
        all_digits(a, 0, a.len() as int),
        decimal(a, 0, a.len() as int) <= i64::MAX,
    ensures
        read_line(seq![MINUS] + a) == Ok::<Ast, Flaw>(
            Ast::Neg(Box::new(Ast::Num(decimal(a, 0, a.len() as int) as i64))),
        ),
{
    let n = a.len() as int;
    let t = Ast::Num(decimal(a, 0, n) as i64);
    assert(is_numeral(a, 0, n, decimal(a, 0, n) as int));
    assert(is_atom(a, 0, n, t));
    assert(is_factor(a, 0, n, t));
    law_negation(a, t);
}

/// Where the text `a` is a factor that writes `t`, the line `-a` is read as
/// the negation of `t`, and `--a` as the negation of that.
pub proof fn law_negation(a: Seq<u8>, t: Ast)
    requires
        is_factor(a, 0, a.len() as int, t),
    ensures
        read_line(seq![MINUS] + a) == Ok::<Ast, Flaw>(Ast::Neg(Box::new(t))),
        read_line(seq![MINUS, MINUS] + a) == Ok::<Ast, Flaw>(
            Ast::Neg(Box::new(Ast::Neg(Box::new(t)))),
        ),
{
    let once = seq![MINUS] + a;
    let twice = seq![MINUS] + once;
    let neg = Ast::Neg(Box::new(t));
    let negneg = Ast::Neg(Box::new(neg));
    lemma_negated_factor(a, t);
    lemma_negated_factor(once, neg);
    assert(twice =~= seq![MINUS, MINUS] + a);
    lemma_factor_is_sum(once, 0, once.len() as int, neg);
    lemma_factor_is_sum(twice, 0, twice.len() as int, negneg);
    lemma_sum_is_line(once, 0, once.len() as int, neg);
    lemma_sum_is_line(twice, 0, twice.len() as int, negneg);
    lemma_line_complete(once, neg);
    lemma_line_complete(twice, negneg);
}

/// A line in parentheses is an atom that writes what the line writes.
pub proof fn lemma_parenthesized(a: Seq<u8>, t: Ast)
    requires
        is_line(a, t),
    ensures
        is_atom(seq![OPEN] + a + seq![CLOSE], 0, a.len() as int + 2, t),
{
    let p = seq![OPEN] + a + seq![CLOSE];
    let n = a.len() as int;
    let (i, j) = choose|i: int, j: int|
        all_blank(a, 0, i) && all_blank(a, j, a.len() as int) && #[trigger] is_sum(a, i, j, t);
    lemma_sum_ends(a, i, j, t);
    assert(same(a, 0, p, 1, n)) by {
        assert forall|x: int| 0 <= x < n implies #[trigger] a[x] == p[x + 1] by {}
    }
    lemma_sum_moves(a, 0, p, 1, n, i, j, t);
    lemma_blank_moves(a, 0, p, 1, n, 0, i);
    lemma_blank_moves(a, 0, p, 1, n, j, n);
    assert(p[0] == OPEN);
    assert(p[n + 1] == CLOSE);
    assert(enclosed(p, 0, i + 1, j + 1, n + 2));
}

/// Where the line `a` writes `t`, the line `-(a)` is read as the negation
/// of `t`, and `--(a)` as the negation of that.
pub proof fn law_negation_in_parentheses(a: Seq<u8>, t: Ast)
    requires
        is_line(a, t),
    ensures
        read_line(seq![MINUS, OPEN] + a + seq![CLOSE]) == Ok::<Ast, Flaw>(Ast::Neg(Box::new(t))),
        read_line(seq![MINUS, MINUS, OPEN] + a + seq![CLOSE]) == Ok::<Ast, Flaw>(
            Ast::Neg(Box::new(Ast::Neg(Box::new(t)))),
        ),
{
    let p = seq![OPEN] + a + seq![CLOSE];
    lemma_parenthesized(a, t);
    assert(p.len() == a.len() + 2);
    law_negation(p, t);
    lemma_signs_before_parentheses(a);
}

/// Signs put before a text in parentheses, one by one or at once, give the
/// same line.
proof fn lemma_signs_before_parentheses(a: Seq<u8>)
    ensures
        seq![MINUS] + (seq![OPEN] + a + seq![CLOSE]) == seq![MINUS, OPEN] + a + seq![CLOSE],
        seq![MINUS, MINUS] + (seq![OPEN] + a + seq![CLOSE]) == seq![MINUS, MINUS, OPEN] + a
            + seq![CLOSE],
{
    assert(seq![MINUS] + (seq![OPEN] + a + seq![CLOSE]) =~= seq![MINUS, OPEN] + a + seq![CLOSE]);
    assert(seq![MINUS, MINUS] + (seq![OPEN] + a + seq![CLOSE]) =~= seq![MINUS, MINUS, OPEN] + a
        + seq![CLOSE]);
}

} // verus!
