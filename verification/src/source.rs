//! From a tree back to a line that writes it.
use vstd::prelude::*;
use crate::agreement::lemma_line_complete;
use crate::ast::Ast;
use crate::error::Flaw;
use crate::grammar::{
    infix, is_atom, is_factor, is_line, is_numeral, is_product, is_sum, lemma_factor_is_sum,
    lemma_sum_is_line,
};
use crate::laws::{lemma_negated_factor, lemma_parenthesized};
use crate::moving::{lemma_factor_moves, lemma_product_moves, lemma_sum_moves, same};
use crate::reading::read_line;
use crate::text::{all_digits, decimal, is_digit, CLOSE, MINUS, OPEN, PLUS, SLASH, STAR, ZERO};

verus! {

/// The digits that write `v` in base ten, without a leading zero (but for
/// `0` itself).
pub open spec fn numeral_of(v: nat) -> Seq<u8>
    decreases v,
{
    if v < 10 {
        seq![(ZERO + v) as u8]
    } else {
        numeral_of(v / 10).push((ZERO + v % 10) as u8)
    }
}

/// The place of an operand: where only a factor may stand.
pub const FACTOR: u8 = 1;

/// The place of an operand: where a product may stand.
pub const PRODUCT: u8 = 2;

/// The place of an operand: where any sum may stand.
pub const SUM: u8 = 3;

/// Whether `t` has to stand in parentheses at a place of the given level.
pub open spec fn needs_parentheses(t: Ast, level: u8) -> bool {
    ||| t.is_sum_node() && level < SUM
    ||| t.is_product_node() && level < PRODUCT
}

/// The line that writes `t` with no blanks, and with parentheses only
/// where the place of an operand asks for them. A number below zero is
/// written with a `-` before its digits.
pub open spec fn source(t: Ast, level: u8) -> Seq<u8>
    decreases t, (if needs_parentheses(t, level) { 1int } else { 0int }),
{
    if needs_parentheses(t, level) {
        seq![OPEN] + source(t, SUM) + seq![CLOSE]
    } else {
        match t {
            Ast::Num(v) => if v >= 0 {
                numeral_of(v as nat)
            } else {
                seq![MINUS] + numeral_of((-v) as nat)
            },
            Ast::Neg(u) => seq![MINUS] + source(*u, FACTOR),
            Ast::Add(l, r) => source(*l, SUM) + seq![PLUS] + source(*r, PRODUCT),
            Ast::Sub(l, r) => source(*l, SUM) + seq![MINUS] + source(*r, PRODUCT),
            Ast::Mul(l, r) => source(*l, PRODUCT) + seq![STAR] + source(*r, FACTOR),
            Ast::Div(l, r) => source(*l, PRODUCT) + seq![SLASH] + source(*r, FACTOR),
        }
    }
}

/// The digits of `v` are digits, and they write `v`.
pub proof fn lemma_numeral_of(v: nat)
    ensures
        numeral_of(v).len() > 0,
        all_digits(numeral_of(v), 0, numeral_of(v).len() as int),
        decimal(numeral_of(v), 0, numeral_of(v).len() as int) == v,
    decreases v,
{
    let s = numeral_of(v);
    if v >= 10 {
        let head = numeral_of(v / 10);
        lemma_numeral_of(v / 10);
        let n = head.len() as int;
        assert(same(head, 0, s, 0, n));
        crate::moving::lemma_decimal_moves(head, 0, s, 0, n, 0, n);
        assert(s[n] == (ZERO + v % 10) as u8);
        assert(decimal(s, 0, n + 1) == decimal(s, 0, n) * 10 + (s[n] - ZERO) as nat);
        assert forall|k: int| 0 <= k < n + 1 implies is_digit(#[trigger] s[k]) by {
            if k < n {
                assert(s[k] == head[k]);
            }
        }
    } else {
        assert(decimal(s, 0, 0) == 0);
        assert(decimal(s, 0, 1) == decimal(s, 0, 0) * 10 + (s[0] - ZERO) as nat);
    }
}

/// Two operands with a sign between them and no blanks: the bytes of each
/// stand in the line that joins them.
proof fn lemma_joined(l: Seq<u8>, sign: u8, r: Seq<u8>)
    ensures
        same(l, 0, l + seq![sign] + r, 0, l.len() as int),
        same(r, 0, l + seq![sign] + r, l.len() as int + 1, r.len() as int),
        infix(l + seq![sign] + r, l.len() as int, l.len() as int, l.len() as int + 1, sign),
        (l + seq![sign] + r).len() == l.len() + 1 + r.len(),
{
}

/// The source of a tree without a number below zero writes that tree, at
/// the level for which it was made.
pub proof fn lemma_source_written(t: Ast, level: u8)
    requires
        t.unsigned(),
        FACTOR <= level <= SUM,
    ensures
        level == FACTOR ==> is_factor(source(t, level), 0, source(t, level).len() as int, t),
        level <= PRODUCT ==> is_product(source(t, level), 0, source(t, level).len() as int, t),
        is_sum(source(t, level), 0, source(t, level).len() as int, t),
    decreases t, (if needs_parentheses(t, level) { 2int } else { 1int }),
{
    let s = source(t, level);
    let n = s.len() as int;
    if needs_parentheses(t, level) {
        let inner = source(t, SUM);
        lemma_source_written(t, SUM);
        lemma_sum_is_line(inner, 0, inner.len() as int, t);
        lemma_parenthesized(inner, t);
        assert(is_factor(s, 0, n, t));
        lemma_factor_is_sum(s, 0, n, t);
    } else {
        match t {
            Ast::Num(v) => {
                lemma_numeral_of(v as nat);
                assert(is_numeral(s, 0, n, v as int));
                assert(is_atom(s, 0, n, t));
                assert(is_factor(s, 0, n, t));
                lemma_factor_is_sum(s, 0, n, t);
            },
            Ast::Neg(u) => {
                lemma_source_written(*u, FACTOR);
                lemma_negated_factor(source(*u, FACTOR), *u);
                lemma_factor_is_sum(s, 0, n, t);
            },
            Ast::Add(l, r) => {
                lemma_sum_written(t);
            },
            Ast::Sub(l, r) => {
                lemma_sum_written(t);
            },
            Ast::Mul(l, r) => {
                lemma_product_written(t);
            },
            Ast::Div(l, r) => {
                lemma_product_written(t);
            },
        }
    }
}

/// What [`lemma_source_written`] says, of an addition or subtraction at the
/// place of a sum.
proof fn lemma_sum_written(t: Ast)
    requires
        t.unsigned(),
        t.is_sum_node(),
    ensures
        is_sum(source(t, SUM), 0, source(t, SUM).len() as int, t),
    decreases t, 0int,
{
    let l = source(t.lhs(), SUM);
    let r = source(t.rhs(), PRODUCT);
    let s = source(t, SUM);
    assert(s == l + seq![t.sign()] + r);
    lemma_source_written(t.lhs(), SUM);
    lemma_source_written(t.rhs(), PRODUCT);
    lemma_joined(l, t.sign(), r);
    let a = l.len() as int;
    lemma_sum_moves(l, 0, s, 0, a, 0, a, t.lhs());
    lemma_product_moves(r, 0, s, a + 1, r.len() as int, 0, r.len() as int, t.rhs());
    crate::grammar::lemma_sum_ends(l, 0, a, t.lhs());
    crate::grammar::lemma_product_ends(r, 0, r.len() as int, t.rhs());
    assert(infix(s, a, a, a + 1, t.sign()));
}

/// What [`lemma_source_written`] says, of a multiplication or division at
/// the place of a product or of a sum.
proof fn lemma_product_written(t: Ast)
    requires
        t.unsigned(),
        t.is_product_node(),
    ensures
        is_product(source(t, PRODUCT), 0, source(t, PRODUCT).len() as int, t),
        is_sum(source(t, SUM), 0, source(t, SUM).len() as int, t),
        source(t, SUM) == source(t, PRODUCT),
    decreases t, 0int,
{
    let l = source(t.lhs(), PRODUCT);
    let r = source(t.rhs(), FACTOR);
    let s = source(t, PRODUCT);
    assert(s == l + seq![t.sign()] + r);
    lemma_source_written(t.lhs(), PRODUCT);
    lemma_source_written(t.rhs(), FACTOR);
    lemma_joined(l, t.sign(), r);
    let a = l.len() as int;
    lemma_product_moves(l, 0, s, 0, a, 0, a, t.lhs());
    lemma_factor_moves(r, 0, s, a + 1, r.len() as int, 0, r.len() as int, t.rhs());
    crate::grammar::lemma_product_ends(l, 0, a, t.lhs());
    crate::grammar::lemma_factor_ends(r, 0, r.len() as int, t.rhs());
    assert(infix(s, a, a, a + 1, t.sign()));
    assert(is_product(s, 0, s.len() as int, t));
}

/// Appends the digits of `v` to `out`.
pub fn write_numeral(v: u64, out: &mut Vec<u8>)
    ensures
        final(out)@ == old(out)@ + numeral_of(v as nat),
    decreases v,
{
    if v >= 10 {
        write_numeral(v / 10, out);
    }
    let digit: u8 = ZERO + (v % 10) as u8;
    out.push(digit);
    assert(final(out)@ =~= old(out)@ + numeral_of(v as nat));
}

/// Whether `t` has to stand in parentheses at a place of the given level.
pub fn wants_parentheses(t: &Ast, level: u8) -> (b: bool)
    ensures
        b == needs_parentheses(*t, level),
{
    match t {
        Ast::Add(_, _) => level < SUM,
        Ast::Sub(_, _) => level < SUM,
        Ast::Mul(_, _) => level < PRODUCT,
        Ast::Div(_, _) => level < PRODUCT,
        _ => false,
    }
}

/// Appends the source of `t`, for a place of the given level, to `out`.
pub fn write_source(t: &Ast, level: u8, out: &mut Vec<u8>)
    ensures
        final(out)@ == old(out)@ + source(*t, level),
    decreases *t, (if needs_parentheses(*t, level) { 1int } else { 0int }),
{
    if wants_parentheses(t, level) {
        out.push(OPEN);
        write_source(t, SUM, out);
        out.push(CLOSE);
        assert(final(out)@ =~= old(out)@ + source(*t, level));
        return ;
    }
    match t {
        Ast::Num(v) => {
            if *v >= 0 {
                write_numeral(*v as u64, out);
            } else {
                out.push(MINUS);
                let magnitude: u64 = if *v == i64::MIN {
                    0x8000_0000_0000_0000u64
                } else {
                    (-*v) as u64
                };
                write_numeral(magnitude, out);
            }
        },
        Ast::Neg(u) => {
            out.push(MINUS);
            write_source(u, FACTOR, out);
        },
        Ast::Add(l, r) => {
            write_source(l, SUM, out);
            out.push(PLUS);
            write_source(r, PRODUCT, out);
        },
        Ast::Sub(l, r) => {
            write_source(l, SUM, out);
            out.push(MINUS);
            write_source(r, PRODUCT, out);
        },
        Ast::Mul(l, r) => {
            write_source(l, PRODUCT, out);
            out.push(STAR);
            write_source(r, FACTOR, out);
        },
        Ast::Div(l, r) => {
            write_source(l, PRODUCT, out);
            out.push(SLASH);
            write_source(r, FACTOR, out);
        },
    }
    assert(final(out)@ =~= old(out)@ + source(*t, level));
}

impl Ast {
    /// The line that writes the tree, as bytes: no blanks, parentheses only
    /// where they are needed. A tree without a number below zero is parsed
    /// back from it.
    pub fn to_source(&self) -> (out: Vec<u8>)
        ensures
            out@ == source(*self, SUM),
            self.unsigned() ==> is_line(out@, *self) && read_line(out@) == Ok::<Ast, Flaw>(*self),
    {
        let mut out: Vec<u8> = Vec::new();
        write_source(self, SUM, &mut out);
        proof {
            assert(out@ =~= source(*self, SUM));
            if self.unsigned() {
                law_read_back(*self);
            }
        }
        out
    }
}

/// A tree without a number below zero is read back from its source.
pub proof fn law_read_back(t: Ast)
    requires
        t.unsigned(),
    ensures
        is_line(source(t, SUM), t),
        read_line(source(t, SUM)) == Ok::<Ast, Flaw>(t),
{
    let s = source(t, SUM);
    lemma_source_written(t, SUM);
    lemma_sum_is_line(s, 0, s.len() as int, t);
    lemma_line_complete(s, t);
}

/// No line writes a number below zero; so the tree of any line is read
/// back from its source.
pub proof fn law_source_of_a_line(s: Seq<u8>, t: Ast)
    requires
        is_line(s, t),
    ensures
        t.unsigned(),
        read_line(source(t, SUM)) == Ok::<Ast, Flaw>(t),
{
    let (i, j) = choose|i: int, j: int|
        crate::text::all_blank(s, 0, i) && crate::text::all_blank(s, j, s.len() as int)
            && #[trigger] is_sum(s, i, j, t);
    crate::grammar::lemma_sum_unsigned(s, i, j, t);
    law_read_back(t);
}

} // verus!
