//! Blanks between the tokens of a line do not matter: one more of them, put
//! anywhere but between two digits, leaves the tree as it was, and so does
//! one less.
use vstd::prelude::*;
use crate::agreement::lemma_line_complete;
use crate::ast::Ast;
use crate::error::Flaw;
use crate::grammar::{
    enclosed, infix, is_atom, is_factor, is_line, is_numeral, is_product, is_sum,
    lemma_factor_ends, lemma_product_ends, lemma_sum_ends, negation,
};
use crate::moving::{lemma_decimal_moves, same};
use crate::reading::read_line;
use crate::text::{all_blank, is_blank, is_digit, BLANK};

verus! {

/// The line `s` with one more blank, put before the byte at `k` (at the end
/// of the line where `k` is its length).
pub open spec fn with_blank(s: Seq<u8>, k: int) -> Seq<u8> {
    s.subrange(0, k) + seq![BLANK] + s.subrange(k, s.len() as int)
}

/// Whether position `k` lies between two digits.
pub open spec fn splits_digits(s: Seq<u8>, k: int) -> bool {
    0 < k < s.len() && is_digit(s[k - 1]) && is_digit(s[k])
}

/// Where the byte of position `i` stands once a blank has come in at `k`.
pub open spec fn pushed(k: int, i: int) -> int {
    if k <= i {
        i + 1
    } else {
        i
    }
}

/// Where a stretch that ended at `j` ends once a blank has come in at `k`.
pub open spec fn pushed_end(k: int, j: int) -> int {
    if k < j {
        j + 1
    } else {
        j
    }
}

/// The bytes of a line with one more blank: the blank, and every byte of
/// the line, each at its new place.
proof fn lemma_with_blank(s: Seq<u8>, k: int)
    requires
        0 <= k <= s.len(),
    ensures
        with_blank(s, k).len() == s.len() + 1,
        with_blank(s, k)[k] == BLANK,
        forall|x: int| 0 <= x < s.len() ==> with_blank(s, k)[pushed(k, x)] == #[trigger] s[x],
        same(s, 0, with_blank(s, k), 0, k),
        same(s, k, with_blank(s, k), k + 1, s.len() - k),
{
}

/// A run of blanks stays one, between the new places of its neighbours.
proof fn lemma_run_spaced(s: Seq<u8>, k: int, a: int, b: int)
    requires
        0 <= k <= s.len(),
        0 <= a <= b <= s.len(),
        all_blank(s, a, b),
    ensures
        all_blank(with_blank(s, k), pushed_end(k, a), pushed(k, b)),
{
    let w = with_blank(s, k);
    lemma_with_blank(s, k);
    assert forall|x: int| pushed_end(k, a) <= x < pushed(k, b) implies is_blank(#[trigger] w[x]) by {
        if x < k {
            assert(w[pushed(k, x)] == s[x]);
        } else if x > k {
            assert(w[pushed(k, x - 1)] == s[x - 1]);
        }
    }
}

/// Digits that the new blank does not split write the same number.
proof fn lemma_numeral_spaced(s: Seq<u8>, k: int, i: int, j: int, v: int)
    requires
        0 <= k <= s.len(),
        !splits_digits(s, k),
        is_numeral(s, i, j, v),
    ensures
        is_numeral(with_blank(s, k), pushed(k, i), pushed_end(k, j), v),
{
    let w = with_blank(s, k);
    lemma_with_blank(s, k);
    if i < k < j {
        assert(is_digit(s[k - 1]));
        assert(is_digit(s[k]));
    } else if k <= i {
        lemma_decimal_moves(s, k, w, k + 1, s.len() - k, i, j);
    } else {
        lemma_decimal_moves(s, 0, w, 0, k, i, j);
    }
}

/// An atom stays one, for the same tree, between its new ends.
proof fn lemma_atom_spaced(s: Seq<u8>, k: int, i: int, j: int, t: Ast)
    requires
        0 <= k <= s.len(),
        !splits_digits(s, k),
        is_atom(s, i, j, t),
    ensures
        is_atom(with_blank(s, k), pushed(k, i), pushed_end(k, j), t),
    decreases t, j - i, 0int,
{
    let w = with_blank(s, k);
    lemma_with_blank(s, k);
    if t matches Ast::Num(v) && is_numeral(s, i, j, v as int) {
        lemma_numeral_spaced(s, k, i, j, t->Num_0 as int);
    } else {
        let (a, b) = choose|a: int, b: int| #[trigger]
            enclosed(s, i, a, b, j) && is_sum(s, a, b, t);
        lemma_sum_spaced(s, k, a, b, t);
        lemma_run_spaced(s, k, i + 1, a);
        lemma_run_spaced(s, k, b, j - 1);
        assert(w[pushed(k, i)] == s[i]);
        assert(w[pushed(k, j - 1)] == s[j - 1]);
        assert(enclosed(w, pushed(k, i), pushed(k, a), pushed_end(k, b), pushed_end(k, j)));
    }
}

/// A factor stays one, for the same tree, between its new ends.
proof fn lemma_factor_spaced(s: Seq<u8>, k: int, i: int, j: int, t: Ast)
    requires
        0 <= k <= s.len(),
        !splits_digits(s, k),
        is_factor(s, i, j, t),
    ensures
        is_factor(with_blank(s, k), pushed(k, i), pushed_end(k, j), t),
    decreases t, j - i, 1int,
{
    let w = with_blank(s, k);
    lemma_with_blank(s, k);
    if is_atom(s, i, j, t) {
        lemma_atom_spaced(s, k, i, j, t);
    } else {
        match t {
            Ast::Neg(u) => {
                let a = choose|a: int| #[trigger]
                    negation(s, i, a) && a < j && is_factor(s, a, j, *u);
                lemma_factor_spaced(s, k, a, j, *u);
                lemma_run_spaced(s, k, i + 1, a);
                assert(w[pushed(k, i)] == s[i]);
                assert(negation(w, pushed(k, i), pushed(k, a)));
            },
            _ => {},
        }
    }
}

/// The sign between two operands stays between them.
proof fn lemma_infix_spaced(s: Seq<u8>, k: int, a: int, o: int, b: int, sign: u8)
    requires
        0 <= k <= s.len(),
        infix(s, a, o, b, sign),
    ensures
        infix(with_blank(s, k), pushed_end(k, a), pushed(k, o), pushed(k, b), sign),
{
    let w = with_blank(s, k);
    lemma_with_blank(s, k);
    lemma_run_spaced(s, k, a, o);
    lemma_run_spaced(s, k, o + 1, b);
    assert(w[pushed(k, o)] == s[o]);
}

/// A product stays one, for the same tree, between its new ends.
proof fn lemma_product_spaced(s: Seq<u8>, k: int, i: int, j: int, t: Ast)
    requires
        0 <= k <= s.len(),
        !splits_digits(s, k),
        is_product(s, i, j, t),
    ensures
        is_product(with_blank(s, k), pushed(k, i), pushed_end(k, j), t),
    decreases t, j - i, 2int,
{
    let w = with_blank(s, k);
    if is_factor(s, i, j, t) {
        lemma_factor_spaced(s, k, i, j, t);
    } else {
        let (a, o, b) = choose|a: int, o: int, b: int| #[trigger]
            infix(s, a, o, b, t.sign()) && i < a && b < j && is_product(s, i, a, t.lhs())
                && is_factor(s, b, j, t.rhs());
        lemma_product_spaced(s, k, i, a, t.lhs());
        lemma_factor_spaced(s, k, b, j, t.rhs());
        lemma_infix_spaced(s, k, a, o, b, t.sign());
        assert(infix(w, pushed_end(k, a), pushed(k, o), pushed(k, b), t.sign()));
    }
}

/// A sum stays one, for the same tree, between its new ends.
proof fn lemma_sum_spaced(s: Seq<u8>, k: int, i: int, j: int, t: Ast)
    requires
        0 <= k <= s.len(),
        !splits_digits(s, k),
        is_sum(s, i, j, t),
    ensures
        is_sum(with_blank(s, k), pushed(k, i), pushed_end(k, j), t),
    decreases t, j - i, 3int,
{
    let w = with_blank(s, k);
    if is_product(s, i, j, t) {
        lemma_product_spaced(s, k, i, j, t);
    } else {
        let (a, o, b) = choose|a: int, o: int, b: int| #[trigger]
            infix(s, a, o, b, t.sign()) && i < a && b < j && is_sum(s, i, a, t.lhs())
                && is_product(s, b, j, t.rhs());
        lemma_sum_spaced(s, k, i, a, t.lhs());
        lemma_product_spaced(s, k, b, j, t.rhs());
        lemma_infix_spaced(s, k, a, o, b, t.sign());
        assert(infix(w, pushed_end(k, a), pushed(k, o), pushed(k, b), t.sign()));
    }
}

/// One more blank, anywhere but between two digits, does not change what a
/// line writes, nor what it is read as.
pub proof fn law_one_more_blank(s: Seq<u8>, k: int, t: Ast)
    requires
        is_line(s, t),
        0 <= k <= s.len(),
        !splits_digits(s, k),
    ensures
        is_line(with_blank(s, k), t),
        read_line(with_blank(s, k)) == Ok::<Ast, Flaw>(t),
{
    let w = with_blank(s, k);
    let (i, j) = choose|i: int, j: int|
        all_blank(s, 0, i) && all_blank(s, j, s.len() as int) && #[trigger] is_sum(s, i, j, t);
    lemma_sum_ends(s, i, j, t);
    lemma_with_blank(s, k);
    lemma_sum_spaced(s, k, i, j, t);
    lemma_run_spaced(s, k, 0, i);
    lemma_run_spaced(s, k, j, s.len() as int);
    assert(all_blank(w, 0, pushed(k, i))) by {
        assert(is_blank(w[k]));
        assert forall|x: int| 0 <= x < pushed(k, i) implies is_blank(#[trigger] w[x]) by {
            if x != k {
                assert(pushed_end(k, 0) <= x);
            }
        }
    }
    assert(all_blank(w, pushed_end(k, j), w.len() as int)) by {
        assert forall|x: int| pushed_end(k, j) <= x < w.len() implies is_blank(#[trigger] w[x]) by {
            if x != k {
                assert(x < pushed(k, s.len() as int));
            }
        }
    }
    assert(is_sum(w, pushed(k, i), pushed_end(k, j), t));
    lemma_line_complete(w, t);
}

/// The line `s` without the byte at `k`.
pub open spec fn without(s: Seq<u8>, k: int) -> Seq<u8> {
    s.subrange(0, k) + s.subrange(k + 1, s.len() as int)
}

/// Where position `i` lies once the byte at `k` has gone.
pub open spec fn pulled(k: int, i: int) -> int {
    if k < i {
        i - 1
    } else {
        i
    }
}

/// The bytes of a line without one of them: every other byte of the line,
/// each at its new place.
proof fn lemma_without(s: Seq<u8>, k: int)
    requires
        0 <= k < s.len(),
    ensures
        without(s, k).len() == s.len() - 1,
        forall|x: int| 0 <= x < s.len() && x != k ==> without(s, k)[pulled(k, x)] == #[trigger] s[x],
        same(s, 0, without(s, k), 0, k),
        same(s, k + 1, without(s, k), k, s.len() - k - 1),
{
}

/// A run of blanks stays one, between the new places of its neighbours.
proof fn lemma_run_closed(s: Seq<u8>, k: int, a: int, b: int)
    requires
        0 <= k < s.len(),
        0 <= a <= b <= s.len(),
        all_blank(s, a, b),
    ensures
        all_blank(without(s, k), pulled(k, a), pulled(k, b)),
{
    let w = without(s, k);
    lemma_without(s, k);
    assert forall|x: int| pulled(k, a) <= x < pulled(k, b) implies is_blank(#[trigger] w[x]) by {
        if x < k {
            assert(w[pulled(k, x)] == s[x]);
        } else {
            assert(w[pulled(k, x + 1)] == s[x + 1]);
        }
    }
}

/// Digits write the same number where a blank has gone from the line.
proof fn lemma_numeral_closed(s: Seq<u8>, k: int, i: int, j: int, v: int)
    requires
        0 <= k < s.len(),
        is_blank(s[k]),
        is_numeral(s, i, j, v),
    ensures
        is_numeral(without(s, k), pulled(k, i), pulled(k, j), v),
{
    let w = without(s, k);
    lemma_without(s, k);
    if i <= k < j {
        assert(is_digit(s[k]));
    } else if k < i {
        lemma_decimal_moves(s, k + 1, w, k, s.len() - k - 1, i, j);
    } else {
        lemma_decimal_moves(s, 0, w, 0, k, i, j);
    }
}

/// An atom stays one, for the same tree, between its new ends.
proof fn lemma_atom_closed(s: Seq<u8>, k: int, i: int, j: int, t: Ast)
    requires
        0 <= k < s.len(),
        is_blank(s[k]),
        is_atom(s, i, j, t),
    ensures
        is_atom(without(s, k), pulled(k, i), pulled(k, j), t),
    decreases t, j - i, 0int,
{
    let w = without(s, k);
    lemma_without(s, k);
    if t matches Ast::Num(v) && is_numeral(s, i, j, v as int) {
        lemma_numeral_closed(s, k, i, j, t->Num_0 as int);
    } else {
        let (a, b) = choose|a: int, b: int| #[trigger]
            enclosed(s, i, a, b, j) && is_sum(s, a, b, t);
        lemma_sum_ends(s, a, b, t);
        lemma_sum_closed(s, k, a, b, t);
        lemma_run_closed(s, k, i + 1, a);
        lemma_run_closed(s, k, b, j - 1);
        assert(w[pulled(k, i)] == s[i]);
        assert(w[pulled(k, j - 1)] == s[j - 1]);
        assert(enclosed(w, pulled(k, i), pulled(k, a), pulled(k, b), pulled(k, j)));
    }
}

/// A factor stays one, for the same tree, between its new ends.
proof fn lemma_factor_closed(s: Seq<u8>, k: int, i: int, j: int, t: Ast)
    requires
        0 <= k < s.len(),
        is_blank(s[k]),
        is_factor(s, i, j, t),
    ensures
        is_factor(without(s, k), pulled(k, i), pulled(k, j), t),
    decreases t, j - i, 1int,
{
    let w = without(s, k);
    lemma_without(s, k);
    if is_atom(s, i, j, t) {
        lemma_atom_closed(s, k, i, j, t);
    } else {
        match t {
            Ast::Neg(u) => {
                let a = choose|a: int| #[trigger]
                    negation(s, i, a) && a < j && is_factor(s, a, j, *u);
                lemma_factor_ends(s, a, j, *u);
                lemma_factor_closed(s, k, a, j, *u);
                lemma_run_closed(s, k, i + 1, a);
                assert(w[pulled(k, i)] == s[i]);
                assert(negation(w, pulled(k, i), pulled(k, a)));
            },
            _ => {},
        }
    }
}

/// The sign between two operands stays between them.
proof fn lemma_infix_closed(s: Seq<u8>, k: int, a: int, o: int, b: int, sign: u8)
    requires
        0 <= k < s.len(),
        is_blank(s[k]),
        !is_blank(sign),
        b < s.len() && !is_blank(s[b]),
        infix(s, a, o, b, sign),
    ensures
        infix(without(s, k), pulled(k, a), pulled(k, o), pulled(k, b), sign),
{
    let w = without(s, k);
    lemma_without(s, k);
    lemma_run_closed(s, k, a, o);
    lemma_run_closed(s, k, o + 1, b);
    assert(w[pulled(k, o)] == s[o]);
}

/// A product stays one, for the same tree, between its new ends.
proof fn lemma_product_closed(s: Seq<u8>, k: int, i: int, j: int, t: Ast)
    requires
        0 <= k < s.len(),
        is_blank(s[k]),
        is_product(s, i, j, t),
    ensures
        is_product(without(s, k), pulled(k, i), pulled(k, j), t),
    decreases t, j - i, 2int,
{
    let w = without(s, k);
    if is_factor(s, i, j, t) {
        lemma_factor_closed(s, k, i, j, t);
    } else {
        let (a, o, b) = choose|a: int, o: int, b: int| #[trigger]
            infix(s, a, o, b, t.sign()) && i < a && b < j && is_product(s, i, a, t.lhs())
                && is_factor(s, b, j, t.rhs());
        lemma_product_ends(s, i, a, t.lhs());
        lemma_factor_ends(s, b, j, t.rhs());
        lemma_product_closed(s, k, i, a, t.lhs());
        lemma_factor_closed(s, k, b, j, t.rhs());
        lemma_infix_closed(s, k, a, o, b, t.sign());
        assert(infix(w, pulled(k, a), pulled(k, o), pulled(k, b), t.sign()));
    }
}

/// A sum stays one, for the same tree, between its new ends.
proof fn lemma_sum_closed(s: Seq<u8>, k: int, i: int, j: int, t: Ast)
    requires
        0 <= k < s.len(),
        is_blank(s[k]),
        is_sum(s, i, j, t),
    ensures
        is_sum(without(s, k), pulled(k, i), pulled(k, j), t),
    decreases t, j - i, 3int,
{
    let w = without(s, k);
    if is_product(s, i, j, t) {
        lemma_product_closed(s, k, i, j, t);
    } else {
        let (a, o, b) = choose|a: int, o: int, b: int| #[trigger]
            infix(s, a, o, b, t.sign()) && i < a && b < j && is_sum(s, i, a, t.lhs())
                && is_product(s, b, j, t.rhs());
        lemma_sum_ends(s, i, a, t.lhs());
        lemma_product_ends(s, b, j, t.rhs());
        lemma_sum_closed(s, k, i, a, t.lhs());
        lemma_product_closed(s, k, b, j, t.rhs());
        lemma_infix_closed(s, k, a, o, b, t.sign());
        assert(infix(w, pulled(k, a), pulled(k, o), pulled(k, b), t.sign()));
    }
}

/// One blank less does not change what a line writes, nor what it is read
/// as.
pub proof fn law_one_blank_less(s: Seq<u8>, k: int, t: Ast)
    requires
        is_line(s, t),
        0 <= k < s.len(),
        is_blank(s[k]),
    ensures
        is_line(without(s, k), t),
        read_line(without(s, k)) == Ok::<Ast, Flaw>(t),
{
    let w = without(s, k);
    let (i, j) = choose|i: int, j: int|
        all_blank(s, 0, i) && all_blank(s, j, s.len() as int) && #[trigger] is_sum(s, i, j, t);
    lemma_sum_ends(s, i, j, t);
    lemma_without(s, k);
    lemma_sum_closed(s, k, i, j, t);
    lemma_run_closed(s, k, 0, i);
    lemma_run_closed(s, k, j, s.len() as int);
    assert(is_sum(w, pulled(k, i), pulled(k, j), t));
    lemma_line_complete(w, t);
}

} // verus!
