//! The grammar of arithmetic expressions, as a relation between a stretch of
//! a line and the tree that it writes.
//!
//! ```text
//! line    = blanks sum blanks
//! sum     = product | sum blanks ("+" | "-") blanks product
//! product = factor | product blanks ("*" | "/") blanks factor
//! factor  = atom | "-" blanks factor
//! atom    = digit+ | "(" blanks sum blanks ")"
//! ```
//!
//! A number is written without a sign, and has to fit an `i64`: a `-`
//! before digits is the `-` of a factor, so `-5` writes the negation of 5.
//!
//! Each predicate speaks of the bytes of `s` from `i` up to `j` and of
//! nothing outside them.
use vstd::prelude::*;
use crate::ast::Ast;
use crate::text::{all_blank, all_digits, decimal, is_digit, CLOSE, MINUS, OPEN};

verus! {

/// The bytes from `i` up to `j` are digits that write the number `v`, which
/// an `i64` can hold.
pub open spec fn is_numeral(s: Seq<u8>, i: int, j: int, v: int) -> bool {
    &&& 0 <= i < j <= s.len()
    &&& all_digits(s, i, j)
    &&& decimal(s, i, j) == v
    &&& v <= i64::MAX
}

/// Between `a` and `b` stands the byte `sign` at `o`, with nothing but
/// blanks on either side of it.
pub open spec fn infix(s: Seq<u8>, a: int, o: int, b: int, sign: u8) -> bool {
    &&& 0 <= a <= o < b <= s.len()
    &&& all_blank(s, a, o)
    &&& s[o] == sign
    &&& all_blank(s, o + 1, b)
}

/// At `i` stands `-`, with nothing but blanks between it and `a`.
pub open spec fn negation(s: Seq<u8>, i: int, a: int) -> bool {
    &&& 0 <= i < a <= s.len()
    &&& s[i] == MINUS
    &&& all_blank(s, i + 1, a)
}

/// At `i` stands `(` and just before `j` stands `)`; between them lies the
/// stretch from `a` up to `b`, with nothing but blanks on either side of it.
pub open spec fn enclosed(s: Seq<u8>, i: int, a: int, b: int, j: int) -> bool {
    &&& 0 <= i < a < b < j <= s.len()
    &&& s[i] == OPEN
    &&& all_blank(s, i + 1, a)
    &&& all_blank(s, b, j - 1)
    &&& s[j - 1] == CLOSE
}

/// The bytes from `i` up to `j` are an atom that writes `t`.
pub open spec fn is_atom(s: Seq<u8>, i: int, j: int, t: Ast) -> bool
    decreases t, j - i, 0int,
{
    &&& 0 <= i < j <= s.len()
    &&& {
        ||| t matches Ast::Num(v) && is_numeral(s, i, j, v as int)
        ||| exists|a: int, b: int| #[trigger] enclosed(s, i, a, b, j) && is_sum(s, a, b, t)
    }
}

/// The bytes from `i` up to `j` are a factor that writes `t`.
pub open spec fn is_factor(s: Seq<u8>, i: int, j: int, t: Ast) -> bool
    decreases t, j - i, 1int,
{
    ||| is_atom(s, i, j, t)
    ||| t matches Ast::Neg(u) && exists|a: int|
        #[trigger] negation(s, i, a) && a < j && is_factor(s, a, j, *u)
}

/// The bytes from `i` up to `j` are a product that writes `t`.
pub open spec fn is_product(s: Seq<u8>, i: int, j: int, t: Ast) -> bool
    decreases t, j - i, 2int,
{
    ||| is_factor(s, i, j, t)
    ||| t.is_product_node() && exists|a: int, o: int, b: int|
        #[trigger] infix(s, a, o, b, t.sign()) && i < a && b < j && is_product(s, i, a, t.lhs())
            && is_factor(s, b, j, t.rhs())
}

/// The bytes from `i` up to `j` are a sum that writes `t`.
pub open spec fn is_sum(s: Seq<u8>, i: int, j: int, t: Ast) -> bool
    decreases t, j - i, 3int,
{
    ||| is_product(s, i, j, t)
    ||| t.is_sum_node() && exists|a: int, o: int, b: int|
        #[trigger] infix(s, a, o, b, t.sign()) && i < a && b < j && is_sum(s, i, a, t.lhs())
            && is_product(s, b, j, t.rhs())
}

/// The line `s` writes the tree `t`: it holds one expression for `t`, with
/// nothing but blanks before and behind it.
pub open spec fn is_line(s: Seq<u8>, t: Ast) -> bool {
    exists|i: int, j: int|
        all_blank(s, 0, i) && all_blank(s, j, s.len() as int) && #[trigger] is_sum(s, i, j, t)
}

/// A factor is a product, and a product is a sum, each of one operand.
pub proof fn lemma_factor_is_sum(s: Seq<u8>, i: int, j: int, t: Ast)
    requires
        is_factor(s, i, j, t),
    ensures
        is_product(s, i, j, t),
        is_sum(s, i, j, t),
{
    assert(is_product(s, i, j, t));
}

/// A sum that fills the line, but for blanks before and behind it, is what
/// the line writes.
pub proof fn lemma_sum_is_line(s: Seq<u8>, i: int, j: int, t: Ast)
    requires
        is_sum(s, i, j, t),
        all_blank(s, 0, i),
        all_blank(s, j, s.len() as int),
    ensures
        is_line(s, t),
{
}

/// A sum writes no number below zero.
pub proof fn lemma_sum_unsigned(s: Seq<u8>, i: int, j: int, t: Ast)
    requires
        is_sum(s, i, j, t),
    ensures
        t.unsigned(),
    decreases t, j - i, 3int,
{
    if is_product(s, i, j, t) {
        lemma_product_unsigned(s, i, j, t);
    } else {
        let (a, o, b) = choose|a: int, o: int, b: int|
            #[trigger] infix(s, a, o, b, t.sign()) && i < a && b < j && is_sum(s, i, a, t.lhs())
                && is_product(s, b, j, t.rhs());
        lemma_sum_unsigned(s, i, a, t.lhs());
        lemma_product_unsigned(s, b, j, t.rhs());
    }
}

/// A product writes no number below zero.
pub proof fn lemma_product_unsigned(s: Seq<u8>, i: int, j: int, t: Ast)
    requires
        is_product(s, i, j, t),
    ensures
        t.unsigned(),
    decreases t, j - i, 2int,
{
    if is_factor(s, i, j, t) {
        lemma_factor_unsigned(s, i, j, t);
    } else {
        let (a, o, b) = choose|a: int, o: int, b: int|
            #[trigger] infix(s, a, o, b, t.sign()) && i < a && b < j && is_product(
                s,
                i,
                a,
                t.lhs(),
            ) && is_factor(s, b, j, t.rhs());
        lemma_product_unsigned(s, i, a, t.lhs());
        lemma_factor_unsigned(s, b, j, t.rhs());
    }
}

/// A factor writes no number below zero.
pub proof fn lemma_factor_unsigned(s: Seq<u8>, i: int, j: int, t: Ast)
    requires
        is_factor(s, i, j, t),
    ensures
        t.unsigned(),
    decreases t, j - i, 1int,
{
    if is_atom(s, i, j, t) {
        if t matches Ast::Num(v) && is_numeral(s, i, j, v as int) {
        } else {
            let (a, b) = choose|a: int, b: int| #[trigger]
                enclosed(s, i, a, b, j) && is_sum(s, a, b, t);
            lemma_sum_unsigned(s, a, b, t);
        }
    } else {
        match t {
            Ast::Neg(u) => {
                let a = choose|a: int|
                    #[trigger] negation(s, i, a) && a < j && is_factor(s, a, j, *u);
                lemma_factor_unsigned(s, a, j, *u);
            },
            _ => {},
        }
    }
}

/// Whether `b` can be the first byte of an expression.
pub open spec fn begins_operand(b: u8) -> bool {
    is_digit(b) || b == MINUS || b == OPEN
}

/// Whether `b` can be the last byte of an expression.
pub open spec fn ends_operand(b: u8) -> bool {
    is_digit(b) || b == CLOSE
}

/// An expression is not empty, lies inside the line, begins with a digit,
/// `-` or `(`, and ends with a digit or `)`.
pub proof fn lemma_sum_ends(s: Seq<u8>, i: int, j: int, t: Ast)
    requires
        is_sum(s, i, j, t),
    ensures
        0 <= i < j <= s.len(),
        begins_operand(s[i]),
        ends_operand(s[j - 1]),
    decreases t, j - i, 3int,
{
    if is_product(s, i, j, t) {
        lemma_product_ends(s, i, j, t);
    } else {
        let (a, o, b) = choose|a: int, o: int, b: int|
            #[trigger] infix(s, a, o, b, t.sign()) && i < a && b < j && is_sum(s, i, a, t.lhs())
                && is_product(s, b, j, t.rhs());
        lemma_sum_ends(s, i, a, t.lhs());
        lemma_product_ends(s, b, j, t.rhs());
    }
}

/// What [`lemma_sum_ends`] says of a sum holds of a product.
pub proof fn lemma_product_ends(s: Seq<u8>, i: int, j: int, t: Ast)
    requires
        is_product(s, i, j, t),
    ensures
        0 <= i < j <= s.len(),
        begins_operand(s[i]),
        ends_operand(s[j - 1]),
    decreases t, j - i, 2int,
{
    if is_factor(s, i, j, t) {
        lemma_factor_ends(s, i, j, t);
    } else {
        let (a, o, b) = choose|a: int, o: int, b: int|
            #[trigger] infix(s, a, o, b, t.sign()) && i < a && b < j && is_product(
                s,
                i,
                a,
                t.lhs(),
            ) && is_factor(s, b, j, t.rhs());
        lemma_product_ends(s, i, a, t.lhs());
        lemma_factor_ends(s, b, j, t.rhs());
    }
}

/// What [`lemma_sum_ends`] says of a sum holds of a factor.
pub proof fn lemma_factor_ends(s: Seq<u8>, i: int, j: int, t: Ast)
    requires
        is_factor(s, i, j, t),
    ensures
        0 <= i < j <= s.len(),
        begins_operand(s[i]),
        ends_operand(s[j - 1]),
    decreases t, j - i, 1int,
{
    if is_atom(s, i, j, t) {
        if t matches Ast::Num(v) && is_numeral(s, i, j, v as int) {
            assert(is_digit(s[i]));
            assert(is_digit(s[j - 1]));
        }
    } else {
        match t {
            Ast::Neg(u) => {
                let a = choose|a: int|
                    #[trigger] negation(s, i, a) && a < j && is_factor(s, a, j, *u);
                lemma_factor_ends(s, a, j, *u);
            },
            _ => {},
        }
    }
}

} // verus!
