//! The reading from left to right and the grammar agree: a line is read as
//! a tree exactly when the grammar says that it writes that tree.
use vstd::prelude::*;
use crate::ast::Ast;
use crate::grammar::{
    enclosed, infix, is_atom, is_factor, is_line, is_numeral, is_product, is_sum,
    lemma_factor_ends, lemma_product_ends, lemma_sum_ends, negation,
};
use crate::reading::{
    is_product_sign, is_sum_sign, join, read_atom, read_factor, read_line, read_product,
    read_product_from, read_sum, read_sum_from, resumed,
};
use crate::text::{
    all_blank, blanks, digits, is_blank, is_digit, lemma_blanks, lemma_blanks_unique,
    lemma_digits, lemma_digits_unique, room, CLOSE, MINUS, OPEN,
};

verus! {

/// What is read as an atom is one.
pub proof fn lemma_atom_sound(s: Seq<u8>, p: int)
    requires
        0 <= p <= s.len(),
    ensures
        read_atom(s, p) matches Ok((t, n)) ==> is_atom(s, p, p + n, t),
    decreases room(s, p), 0int,
{
    if p < s.len() && is_digit(s[p]) {
        lemma_digits(s, p);
    } else if p < s.len() && s[p] == OPEN {
        lemma_blanks(s, p + 1);
        let a = p + 1 + blanks(s, p + 1);
        lemma_sum_sound(s, a);
        if let Ok((t, n)) = read_sum(s, a) {
            let b = a + n;
            lemma_sum_ends(s, a, b, t);
            lemma_blanks(s, b);
            let close = b + blanks(s, b);
            if close < s.len() && s[close] == CLOSE {
                assert(enclosed(s, p, a, b, close + 1));
            }
        }
    }
}

/// What is read as a factor is one.
pub proof fn lemma_factor_sound(s: Seq<u8>, p: int)
    requires
        0 <= p <= s.len(),
    ensures
        read_factor(s, p) matches Ok((t, n)) ==> is_factor(s, p, p + n, t),
    decreases room(s, p), 1int,
{
    if p < s.len() && s[p] == MINUS {
        lemma_blanks(s, p + 1);
        let a = p + 1 + blanks(s, p + 1);
        lemma_factor_sound(s, a);
        if let Ok((u, n)) = read_factor(s, a) {
            lemma_factor_ends(s, a, a + n, u);
            assert(negation(s, p, a));
        }
    } else {
        lemma_atom_sound(s, p);
    }
}

/// Where the bytes from `i` up to `e` are a product for `acc`, what is read
/// on from `e` is a product that begins at `i`.
pub proof fn lemma_product_from_sound(s: Seq<u8>, i: int, e: int, acc: Ast)
    requires
        is_product(s, i, e, acc),
    ensures
        read_product_from(s, e, acc) matches Ok((t, m)) ==> is_product(s, i, e + m, t),
    decreases room(s, e), 2int,
{
    lemma_product_ends(s, i, e, acc);
    lemma_blanks(s, e);
    let o = e + blanks(s, e);
    if o < s.len() && is_product_sign(s[o]) {
        lemma_blanks(s, o + 1);
        let b = o + 1 + blanks(s, o + 1);
        lemma_factor_sound(s, b);
        if let Ok((right, n)) = read_factor(s, b) {
            lemma_factor_ends(s, b, b + n, right);
            let node = join(s[o], acc, right);
            assert(infix(s, e, o, b, node.sign()));
            assert(is_product(s, i, b + n, node));
            lemma_product_from_sound(s, i, b + n, node);
        }
    }
}

/// What is read as a product is one.
pub proof fn lemma_product_sound(s: Seq<u8>, p: int)
    requires
        0 <= p <= s.len(),
    ensures
        read_product(s, p) matches Ok((t, n)) ==> is_product(s, p, p + n, t),
    decreases room(s, p), 3int,
{
    lemma_factor_sound(s, p);
    if let Ok((first, n)) = read_factor(s, p) {
        lemma_product_from_sound(s, p, p + n, first);
    }
}

/// Where the bytes from `i` up to `e` are a sum for `acc`, what is read on
/// from `e` is a sum that begins at `i`.
pub proof fn lemma_sum_from_sound(s: Seq<u8>, i: int, e: int, acc: Ast)
    requires
        is_sum(s, i, e, acc),
    ensures
        read_sum_from(s, e, acc) matches Ok((t, m)) ==> is_sum(s, i, e + m, t),
    decreases room(s, e), 4int,
{
    lemma_sum_ends(s, i, e, acc);
    lemma_blanks(s, e);
    let o = e + blanks(s, e);
    if o < s.len() && is_sum_sign(s[o]) {
        lemma_blanks(s, o + 1);
        let b = o + 1 + blanks(s, o + 1);
        lemma_product_sound(s, b);
        if let Ok((right, n)) = read_product(s, b) {
            lemma_product_ends(s, b, b + n, right);
            let node = join(s[o], acc, right);
            assert(infix(s, e, o, b, node.sign()));
            assert(is_sum(s, i, b + n, node));
            lemma_sum_from_sound(s, i, b + n, node);
        }
    }
}

/// What is read as a sum is one.
pub proof fn lemma_sum_sound(s: Seq<u8>, p: int)
    requires
        0 <= p <= s.len(),
    ensures
        read_sum(s, p) matches Ok((t, n)) ==> is_sum(s, p, p + n, t),
    decreases room(s, p), 5int,
{
    lemma_product_sound(s, p);
    if let Ok((first, n)) = read_product(s, p) {
        lemma_sum_from_sound(s, p, p + n, first);
    }
}

/// No digit stands at `j`: a run of digits that ends there is not cut short.
pub open spec fn no_digit_at(s: Seq<u8>, j: int) -> bool {
    !(0 <= j < s.len() && is_digit(s[j]))
}

/// The first byte at or behind `j` that is no blank is neither `*` nor `/`.
pub open spec fn no_product_sign_next(s: Seq<u8>, j: int) -> bool {
    !(j + blanks(s, j) < s.len() && is_product_sign(s[j + blanks(s, j)]))
}

/// An atom with no digit behind it is read as what it writes.
pub proof fn lemma_atom_complete(s: Seq<u8>, i: int, j: int, t: Ast)
    requires
        is_atom(s, i, j, t),
        no_digit_at(s, j),
    ensures
        read_atom(s, i) == Ok::<(Ast, nat), crate::error::Flaw>((t, (j - i) as nat)),
    decreases t, j - i, 0int,
{
    if is_digit(s[i]) {
        assert(s[i] != OPEN);
        assert(forall|a: int, b: int| !enclosed(s, i, a, b, j));
        lemma_digits_unique(s, i, j);
    } else {
        if t matches Ast::Num(v) && is_numeral(s, i, j, v as int) {
            assert(is_digit(s[i]));
        }
        let (a, b) = choose|a: int, b: int| #[trigger] enclosed(s, i, a, b, j) && is_sum(s, a, b, t);
        lemma_sum_ends(s, a, b, t);
        lemma_blanks_unique(s, i + 1, a);
        lemma_blanks_unique(s, b, j - 1);
        assert(!is_digit(s[b])) by {
            if b < j - 1 {
                assert(is_blank(s[b]));
            }
        }
        lemma_sum_complete(s, a, b, t);
    }
}

/// A factor with no digit behind it is read as what it writes.
pub proof fn lemma_factor_complete(s: Seq<u8>, i: int, j: int, t: Ast)
    requires
        is_factor(s, i, j, t),
        no_digit_at(s, j),
    ensures
        read_factor(s, i) == Ok::<(Ast, nat), crate::error::Flaw>((t, (j - i) as nat)),
    decreases t, j - i, 1int,
{
    if is_atom(s, i, j, t) {
        if t matches Ast::Num(v) && is_numeral(s, i, j, v as int) {
            assert(is_digit(s[i]));
        }
        assert(s[i] != MINUS);
        lemma_atom_complete(s, i, j, t);
    } else {
        match t {
            Ast::Neg(u) => {
                let a = choose|a: int|
                    #[trigger] negation(s, i, a) && a < j && is_factor(s, a, j, *u);
                lemma_factor_ends(s, a, j, *u);
                lemma_blanks_unique(s, i + 1, a);
                lemma_factor_complete(s, a, j, *u);
            },
            _ => {},
        }
    }
}

/// One step of reading a product on: behind what ends at `a` stands `sign`
/// at `o` and, from `b` up to `j`, a factor that is read as `right`.
proof fn lemma_product_step(s: Seq<u8>, a: int, o: int, b: int, j: int, acc: Ast, right: Ast)
    requires
        infix(s, a, o, b, s[o]),
        is_product_sign(s[o]),
        b < j <= s.len(),
        !is_blank(s[b]),
        read_factor(s, b) == Ok::<(Ast, nat), crate::error::Flaw>((right, (j - b) as nat)),
    ensures
        read_product_from(s, a, acc) == resumed(
            a,
            j,
            read_product_from(s, j, join(s[o], acc, right)),
        ),
{
    lemma_blanks_unique(s, a, o);
    lemma_blanks_unique(s, o + 1, b);
}

/// One step of reading a sum on: behind what ends at `a` stands `sign` at
/// `o` and, from `b` up to `j`, a product that is read as `right`.
proof fn lemma_sum_step(s: Seq<u8>, a: int, o: int, b: int, j: int, acc: Ast, right: Ast)
    requires
        infix(s, a, o, b, s[o]),
        is_sum_sign(s[o]),
        b < j <= s.len(),
        !is_blank(s[b]),
        read_product(s, b) == Ok::<(Ast, nat), crate::error::Flaw>((right, (j - b) as nat)),
    ensures
        read_sum_from(s, a, acc) == resumed(a, j, read_sum_from(s, j, join(s[o], acc, right))),
{
    lemma_blanks_unique(s, a, o);
    lemma_blanks_unique(s, o + 1, b);
}

/// Reading a product with no digit behind it comes to its end with its
/// tree, and goes on from there.
pub proof fn lemma_product_complete(s: Seq<u8>, i: int, j: int, t: Ast)
    requires
        is_product(s, i, j, t),
        no_digit_at(s, j),
    ensures
        read_product(s, i) == resumed(i, j, read_product_from(s, j, t)),
    decreases t, j - i, 2int,
{
    lemma_product_ends(s, i, j, t);
    if is_factor(s, i, j, t) {
        lemma_factor_complete(s, i, j, t);
    } else {
        let (a, o, b) = choose|a: int, o: int, b: int|
            #[trigger] infix(s, a, o, b, t.sign()) && i < a && b < j && is_product(
                s,
                i,
                a,
                t.lhs(),
            ) && is_factor(s, b, j, t.rhs());
        assert(!is_digit(s[a])) by {
            if a < o {
                assert(is_blank(s[a]));
            }
        }
        lemma_product_complete(s, i, a, t.lhs());
        lemma_factor_ends(s, b, j, t.rhs());
        lemma_factor_complete(s, b, j, t.rhs());
        assert(join(s[o], t.lhs(), t.rhs()) == t);
        lemma_product_step(s, a, o, b, j, t.lhs(), t.rhs());
    }
}

/// With neither `*` nor `/` next, reading a product on stops at once.
proof fn lemma_product_stops(s: Seq<u8>, j: int, t: Ast)
    requires
        no_product_sign_next(s, j),
    ensures
        read_product_from(s, j, t) == Ok::<(Ast, nat), crate::error::Flaw>((t, 0)),
{
}

/// The steps of reading a sum and of reading it in two parts are the same.
proof fn lemma_sum_parts(s: Seq<u8>, i: int, a: int, j: int, first: Ast, t: Ast)
    requires
        i <= a <= j,
        read_sum(s, i) == resumed(i, a, read_sum_from(s, a, first)),
        read_sum_from(s, a, first) == resumed(a, j, read_sum_from(s, j, t)),
    ensures
        read_sum(s, i) == resumed(i, j, read_sum_from(s, j, t)),
{
}

/// A sum begins with the product that is read first.
proof fn lemma_sum_first(s: Seq<u8>, i: int, j: int, t: Ast)
    requires
        i <= j,
        read_product(s, i) == Ok::<(Ast, nat), crate::error::Flaw>((t, (j - i) as nat)),
    ensures
        read_sum(s, i) == resumed(i, j, read_sum_from(s, j, t)),
{
}

/// Reading a sum with neither a digit nor `*` or `/` behind it comes to its
/// end with its tree, and goes on from there.
pub proof fn lemma_sum_complete(s: Seq<u8>, i: int, j: int, t: Ast)
    requires
        is_sum(s, i, j, t),
        no_digit_at(s, j),
        no_product_sign_next(s, j),
    ensures
        read_sum(s, i) == resumed(i, j, read_sum_from(s, j, t)),
    decreases t, j - i, 3int,
{
    lemma_sum_ends(s, i, j, t);
    if is_product(s, i, j, t) {
        lemma_product_complete(s, i, j, t);
        lemma_product_stops(s, j, t);
        lemma_sum_first(s, i, j, t);
    } else {
        let (a, o, b) = choose|a: int, o: int, b: int|
            #[trigger] infix(s, a, o, b, t.sign()) && i < a && b < j && is_sum(s, i, a, t.lhs())
                && is_product(s, b, j, t.rhs());
        assert(!is_digit(s[a])) by {
            if a < o {
                assert(is_blank(s[a]));
            }
        }
        assert(no_product_sign_next(s, a)) by {
            lemma_blanks_unique(s, a, o);
        }
        lemma_sum_complete(s, i, a, t.lhs());
        lemma_product_ends(s, b, j, t.rhs());
        lemma_product_complete(s, b, j, t.rhs());
        lemma_product_stops(s, j, t.rhs());
        assert(join(s[o], t.lhs(), t.rhs()) == t);
        lemma_sum_step(s, a, o, b, j, t.lhs(), t.rhs());
        lemma_sum_parts(s, i, a, j, t.lhs(), t);
    }
}

/// A line that is read as a tree writes that tree.
pub proof fn lemma_line_sound(s: Seq<u8>, t: Ast)
    requires
        read_line(s) == Ok::<Ast, crate::error::Flaw>(t),
    ensures
        is_line(s, t),
{
    lemma_blanks(s, 0);
    let i = blanks(s, 0) as int;
    lemma_sum_sound(s, i);
    if let Ok((tree, n)) = read_sum(s, i) {
        lemma_sum_ends(s, i, i + n, tree);
        lemma_blanks(s, i + n);
        assert(is_sum(s, i, i + n, t));
    }
}

/// A line that writes a tree is read as that tree.
pub proof fn lemma_line_complete(s: Seq<u8>, t: Ast)
    requires
        is_line(s, t),
    ensures
        read_line(s) == Ok::<Ast, crate::error::Flaw>(t),
{
    let (i, j) = choose|i: int, j: int|
        all_blank(s, 0, i) && all_blank(s, j, s.len() as int) && #[trigger] is_sum(s, i, j, t);
    lemma_sum_ends(s, i, j, t);
    lemma_blanks_unique(s, 0, i);
    lemma_blanks_unique(s, j, s.len() as int);
    assert(no_digit_at(s, j)) by {
        if j < s.len() {
            assert(is_blank(s[j]));
        }
    }
    lemma_sum_complete(s, i, j, t);
}

} // verus!
