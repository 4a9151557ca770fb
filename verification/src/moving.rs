//! What the grammar says of a stretch of bytes depends on those bytes alone:
//! it holds of the same bytes wherever they stand, in whatever line.
use vstd::prelude::*;
use crate::ast::Ast;
use crate::grammar::{enclosed, infix, is_atom, is_factor, is_numeral, is_product, is_sum, negation};
use crate::text::{all_blank, all_digits, decimal, is_blank, is_digit};

verus! {

/// The `n` bytes of `s1` from `i1` on are the `n` bytes of `s2` from `i2`
/// on.
pub open spec fn same(s1: Seq<u8>, i1: int, s2: Seq<u8>, i2: int, n: int) -> bool {
    &&& 0 <= i1 && i1 + n <= s1.len()
    &&& 0 <= i2 && i2 + n <= s2.len()
    &&& forall|x: int| i1 <= x < i1 + n ==> #[trigger] s1[x] == s2[x - i1 + i2]
}

/// Blanks stay blanks where the same bytes stand elsewhere.
pub proof fn lemma_blank_moves(s1: Seq<u8>, i1: int, s2: Seq<u8>, i2: int, n: int, a: int, b: int)
    requires
        same(s1, i1, s2, i2, n),
        i1 <= a && b <= i1 + n,
        all_blank(s1, a, b),
    ensures
        all_blank(s2, a - i1 + i2, b - i1 + i2),
{
    assert forall|k: int| a - i1 + i2 <= k < b - i1 + i2 implies is_blank(#[trigger] s2[k]) by {
        assert(s1[k - i2 + i1] == s2[k]);
    }
}

/// Digits write the same number where the same bytes stand elsewhere.
pub proof fn lemma_decimal_moves(s1: Seq<u8>, i1: int, s2: Seq<u8>, i2: int, n: int, a: int, b: int)
    requires
        same(s1, i1, s2, i2, n),
        i1 <= a <= b <= i1 + n,
    ensures
        decimal(s1, a, b) == decimal(s2, a - i1 + i2, b - i1 + i2),
        all_digits(s1, a, b) ==> all_digits(s2, a - i1 + i2, b - i1 + i2),
    decreases b - a,
{
    if a < b {
        lemma_decimal_moves(s1, i1, s2, i2, n, a, b - 1);
        assert(s1[b - 1] == s2[b - 1 - i1 + i2]);
    }
    if all_digits(s1, a, b) {
        assert forall|k: int| a - i1 + i2 <= k < b - i1 + i2 implies is_digit(#[trigger] s2[k]) by {
            assert(s1[k - i2 + i1] == s2[k]);
        }
    }
}

/// An atom is an atom where the same bytes stand elsewhere.
pub proof fn lemma_atom_moves(
    s1: Seq<u8>,
    i1: int,
    s2: Seq<u8>,
    i2: int,
    n: int,
    i: int,
    j: int,
    t: Ast,
)
    requires
        same(s1, i1, s2, i2, n),
        i1 <= i && j <= i1 + n,
        is_atom(s1, i, j, t),
    ensures
        is_atom(s2, i - i1 + i2, j - i1 + i2, t),
    decreases t, j - i, 0int,
{
    let d = i2 - i1;
    if t matches Ast::Num(v) && is_numeral(s1, i, j, v as int) {
        lemma_decimal_moves(s1, i1, s2, i2, n, i, j);
    } else {
        let (a, b) = choose|a: int, b: int| #[trigger]
            enclosed(s1, i, a, b, j) && is_sum(s1, a, b, t);
        lemma_sum_moves(s1, i1, s2, i2, n, a, b, t);
        lemma_blank_moves(s1, i1, s2, i2, n, i + 1, a);
        lemma_blank_moves(s1, i1, s2, i2, n, b, j - 1);
        assert(s1[i] == s2[i + d]);
        assert(s1[j - 1] == s2[j - 1 + d]);
        assert(enclosed(s2, i + d, a + d, b + d, j + d));
    }
}

/// A factor is a factor where the same bytes stand elsewhere.
pub proof fn lemma_factor_moves(
    s1: Seq<u8>,
    i1: int,
    s2: Seq<u8>,
    i2: int,
    n: int,
    i: int,
    j: int,
    t: Ast,
)
    requires
        same(s1, i1, s2, i2, n),
        i1 <= i && j <= i1 + n,
        is_factor(s1, i, j, t),
    ensures
        is_factor(s2, i - i1 + i2, j - i1 + i2, t),
    decreases t, j - i, 1int,
{
    let d = i2 - i1;
    if is_atom(s1, i, j, t) {
        lemma_atom_moves(s1, i1, s2, i2, n, i, j, t);
    } else {
        match t {
            Ast::Neg(u) => {
                let a = choose|a: int| #[trigger]
                    negation(s1, i, a) && a < j && is_factor(s1, a, j, *u);
                lemma_factor_moves(s1, i1, s2, i2, n, a, j, *u);
                lemma_blank_moves(s1, i1, s2, i2, n, i + 1, a);
                assert(s1[i] == s2[i + d]);
                assert(negation(s2, i + d, a + d));
            },
            _ => {},
        }
    }
}

/// The sign between two operands stays where the same bytes stand
/// elsewhere.
proof fn lemma_infix_moves(
    s1: Seq<u8>,
    i1: int,
    s2: Seq<u8>,
    i2: int,
    n: int,
    a: int,
    o: int,
    b: int,
    sign: u8,
)
    requires
        same(s1, i1, s2, i2, n),
        i1 <= a && b <= i1 + n,
        infix(s1, a, o, b, sign),
    ensures
        infix(s2, a - i1 + i2, o - i1 + i2, b - i1 + i2, sign),
{
    lemma_blank_moves(s1, i1, s2, i2, n, a, o);
    lemma_blank_moves(s1, i1, s2, i2, n, o + 1, b);
    assert(s1[o] == s2[o - i1 + i2]);
}

/// A product is a product where the same bytes stand elsewhere.
pub proof fn lemma_product_moves(
    s1: Seq<u8>,
    i1: int,
    s2: Seq<u8>,
    i2: int,
    n: int,
    i: int,
    j: int,
    t: Ast,
)
    requires
        same(s1, i1, s2, i2, n),
        i1 <= i && j <= i1 + n,
        is_product(s1, i, j, t),
    ensures
        is_product(s2, i - i1 + i2, j - i1 + i2, t),
    decreases t, j - i, 2int,
{
    let d = i2 - i1;
    if is_factor(s1, i, j, t) {
        lemma_factor_moves(s1, i1, s2, i2, n, i, j, t);
    } else {
        let (a, o, b) = choose|a: int, o: int, b: int| #[trigger]
            infix(s1, a, o, b, t.sign()) && i < a && b < j && is_product(s1, i, a, t.lhs())
                && is_factor(s1, b, j, t.rhs());
        lemma_product_moves(s1, i1, s2, i2, n, i, a, t.lhs());
        lemma_factor_moves(s1, i1, s2, i2, n, b, j, t.rhs());
        lemma_infix_moves(s1, i1, s2, i2, n, a, o, b, t.sign());
        assert(infix(s2, a + d, o + d, b + d, t.sign()));
    }
}

/// A sum is a sum where the same bytes stand elsewhere.
pub proof fn lemma_sum_moves(
    s1: Seq<u8>,
    i1: int,
    s2: Seq<u8>,
    i2: int,
    n: int,
    i: int,
    j: int,
    t: Ast,
)
    requires
        same(s1, i1, s2, i2, n),
        i1 <= i && j <= i1 + n,
        is_sum(s1, i, j, t),
    ensures
        is_sum(s2, i - i1 + i2, j - i1 + i2, t),
    decreases t, j - i, 3int,
{
    let d = i2 - i1;
    if is_product(s1, i, j, t) {
        lemma_product_moves(s1, i1, s2, i2, n, i, j, t);
    } else {
        let (a, o, b) = choose|a: int, o: int, b: int| #[trigger]
            infix(s1, a, o, b, t.sign()) && i < a && b < j && is_sum(s1, i, a, t.lhs())
                && is_product(s1, b, j, t.rhs());
        lemma_sum_moves(s1, i1, s2, i2, n, i, a, t.lhs());
        lemma_product_moves(s1, i1, s2, i2, n, b, j, t.rhs());
        lemma_infix_moves(s1, i1, s2, i2, n, a, o, b, t.sign());
        assert(infix(s2, a + d, o + d, b + d, t.sign()));
    }
}

} // verus!
