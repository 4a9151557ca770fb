//! A flaw depends on the line up to its position alone: whatever follows,
//! the reading fails there in the same way.
use vstd::prelude::*;
use crate::agreement::{lemma_factor_sound, lemma_line_complete, lemma_product_sound, lemma_sum_sound};
use crate::ast::Ast;
use crate::error::{Flaw, SyntaxErrorKind};
use crate::flaws::{
    holds, law_flaw_holds, lemma_factor_flaw, lemma_product_flaw, lemma_product_from_flaw,
    lemma_sum_flaw, lemma_sum_from_flaw,
};
use crate::grammar::{is_line, lemma_factor_ends, lemma_product_ends, lemma_sum_ends};
use crate::moving::{lemma_decimal_moves, same};
use crate::reading::{
    is_product_sign, is_sum_sign, join, read_atom, read_factor, read_line, read_product,
    read_product_from, read_sum, read_sum_from, Reading,
};
use crate::text::{
    all_digits, blanks, decimal, digits, is_blank, is_digit, lemma_blanks, lemma_decimal_grows,
    lemma_digits, room, MINUS, OPEN,
};

verus! {

/// How much of the line `s` the flaw `f` rests on: the bytes up to and with
/// the one at its position, or, for a number, up to the end of its digits.
pub open spec fn reach(s: Seq<u8>, f: Flaw) -> int {
    if f.kind == SyntaxErrorKind::MalformedInteger {
        f.at + digits(s, f.at)
    } else {
        f.at + 1
    }
}

/// The first `m` bytes of `s` are the first `m` bytes of `s2`.
#[verifier::opaque]
spec fn agree(s: Seq<u8>, s2: Seq<u8>, m: int) -> bool {
    same(s, 0, s2, 0, m)
}

/// Lines that agree on their first `m` bytes have the same byte at each
/// position before `m`.
proof fn lemma_agree_at(s: Seq<u8>, s2: Seq<u8>, m: int, x: int)
    requires
        agree(s, s2, m),
        0 <= x < m,
    ensures
        x < s.len(),
        x < s2.len(),
        s[x] == s2[x],
{
    reveal(agree);
}

/// A flaw that holds rests on its own position at least.
proof fn lemma_reach(s: Seq<u8>, f: Flaw)
    requires
        holds(s, f),
    ensures
        f.at < reach(s, f),
{
}

/// Whether the outcome of a reading at `p` rests on the first `m` bytes
/// only: a construct with the byte behind it, or a flaw with its reach.
spec fn within(s: Seq<u8>, p: int, r: Reading, m: int) -> bool {
    match r {
        Ok((_, n)) => p + n < m,
        Err(f) => reach(s, f) <= m,
    }
}

/// As [`within`], for a reading that looks for a sign behind the blanks
/// that follow the construct.
spec fn within_sign(s: Seq<u8>, p: int, r: Reading, m: int) -> bool {
    match r {
        Ok((_, n)) => p + n + blanks(s, p + n) < m,
        Err(f) => reach(s, f) <= m,
    }
}

/// A run of blanks that ends before `m` is the same run in a line with the
/// same first `m` bytes, and the same byte follows it.
proof fn lemma_blanks_local(s: Seq<u8>, s2: Seq<u8>, m: int, p: int)
    requires
        agree(s, s2, m),
        0 <= p,
        p + blanks(s, p) < m,
    ensures
        blanks(s2, p) == blanks(s, p),
        p + blanks(s, p) < s.len(),
        p + blanks(s, p) < s2.len(),
        s2[p + blanks(s, p)] == s[p + blanks(s, p)],
    decreases room(s, p),
{
    lemma_agree_at(s, s2, m, p);
    if is_blank(s[p]) {
        lemma_blanks_local(s, s2, m, p + 1);
    }
}

/// A run of digits that ends before `m` is the same run, and writes the
/// same number, in a line with the same first `m` bytes.
proof fn lemma_digits_local(s: Seq<u8>, s2: Seq<u8>, m: int, p: int)
    requires
        agree(s, s2, m),
        0 <= p,
        p + digits(s, p) < m,
    ensures
        digits(s2, p) == digits(s, p),
        decimal(s2, p, p + digits(s, p)) == decimal(s, p, p + digits(s, p)),
    decreases room(s, p),
{
    lemma_agree_at(s, s2, m, p);
    if is_digit(s[p]) {
        lemma_digits_local(s, s2, m, p + 1);
    }
    assert(decimal(s2, p, p + digits(s, p)) == decimal(s, p, p + digits(s, p))) by {
        reveal(agree);
        lemma_decimal_moves(s, 0, s2, 0, m, p, p + digits(s, p));
    }
}

/// Where `n` digits stand from `p` on, the run of digits there is at least
/// as long.
proof fn lemma_digits_at_least(s: Seq<u8>, p: int, n: int)
    requires
        0 <= p,
        0 <= n,
        p + n <= s.len(),
        all_digits(s, p, p + n),
    ensures
        digits(s, p) >= n,
    decreases n,
{
    if n > 0 {
        assert(is_digit(s[p]));
        lemma_digits_at_least(s, p + 1, n - 1);
    }
}

/// A run of digits that ends at or before `m` writes no smaller number in a
/// line with the same first `m` bytes.
proof fn lemma_digits_go_on(s: Seq<u8>, s2: Seq<u8>, m: int, p: int)
    requires
        agree(s, s2, m),
        0 <= p,
        p + digits(s, p) <= m,
    ensures
        decimal(s2, p, p + digits(s2, p)) >= decimal(s, p, p + digits(s, p)),
{
    let n = digits(s, p) as int;
    reveal(agree);
    lemma_digits(s, p);
    lemma_decimal_moves(s, 0, s2, 0, m, p, p + n);
    lemma_digits_at_least(s2, p, n);
    lemma_digits(s2, p);
    lemma_decimal_grows(s2, p, p + n, p + digits(s2, p));
}

/// The outcome of reading a factor at `p`: a factor is not empty and ends
/// inside the line; a flaw lies at or behind `p`, before its reach.
proof fn lemma_factor_shape(s: Seq<u8>, p: int)
    requires
        0 <= p <= s.len(),
    ensures
        read_factor(s, p) matches Ok((_, n)) ==> n > 0 && p + n <= s.len(),
        read_factor(s, p) matches Err(f) ==> p <= f.at < reach(s, f),
{
    lemma_factor_flaw(s, p);
    lemma_factor_sound(s, p);
    if let Ok((t, n)) = read_factor(s, p) {
        lemma_factor_ends(s, p, p + n, t);
    }
}

/// As [`lemma_factor_shape`], for a product.
proof fn lemma_product_shape(s: Seq<u8>, p: int)
    requires
        0 <= p <= s.len(),
    ensures
        read_product(s, p) matches Ok((_, n)) ==> n > 0 && p + n <= s.len(),
        read_product(s, p) matches Err(f) ==> p <= f.at < reach(s, f),
{
    lemma_product_flaw(s, p);
    lemma_product_sound(s, p);
    if let Ok((t, n)) = read_product(s, p) {
        lemma_product_ends(s, p, p + n, t);
    }
}

/// As [`lemma_factor_shape`], for a sum.
proof fn lemma_sum_shape(s: Seq<u8>, p: int)
    requires
        0 <= p <= s.len(),
    ensures
        read_sum(s, p) matches Ok((_, n)) ==> n > 0 && p + n <= s.len(),
        read_sum(s, p) matches Err(f) ==> p <= f.at < reach(s, f),
{
    lemma_sum_flaw(s, p);
    lemma_sum_sound(s, p);
    if let Ok((t, n)) = read_sum(s, p) {
        lemma_sum_ends(s, p, p + n, t);
    }
}

/// The outcome of reading a product on from `e`: either nothing was read,
/// or the sign behind the blanks at `e` was; a flaw lies behind that sign.
proof fn lemma_product_from_shape(s: Seq<u8>, e: int, acc: Ast)
    requires
        0 <= e <= s.len(),
    ensures
        read_product_from(s, e, acc) matches Ok((_, n)) ==> n == 0 || n > blanks(s, e),
        read_product_from(s, e, acc) matches Err(f) ==> e + blanks(s, e) < f.at < reach(s, f),
{
    lemma_product_from_flaw(s, e, acc);
}

/// As [`lemma_product_from_shape`], for a sum.
proof fn lemma_sum_from_shape(s: Seq<u8>, e: int, acc: Ast)
    requires
        0 <= e <= s.len(),
    ensures
        read_sum_from(s, e, acc) matches Ok((_, n)) ==> n == 0 || n > blanks(s, e),
        read_sum_from(s, e, acc) matches Err(f) ==> e + blanks(s, e) < f.at < reach(s, f),
{
    lemma_sum_from_flaw(s, e, acc);
}

/// A number at `p`, or the flaw of one that is too large, is the same in a
/// line with the same first `m` bytes.
proof fn lemma_number_local(s: Seq<u8>, s2: Seq<u8>, m: int, p: int)
    requires
        agree(s, s2, m),
        0 <= p < s.len(),
        is_digit(s[p]),
        within(s, p, read_atom(s, p), m),
    ensures
        read_atom(s2, p) == read_atom(s, p),
{
    lemma_digits(s, p);
    lemma_agree_at(s, s2, m, p);
    if read_atom(s, p) is Ok {
        lemma_digits_local(s, s2, m, p);
    } else {
        lemma_digits_go_on(s, s2, m, p);
    }
}

/// An atom in parentheses at `p`, or the flaw met in reading one, is the
/// same in a line with the same first `m` bytes.
proof fn lemma_parentheses_local(s: Seq<u8>, s2: Seq<u8>, m: int, p: int)
    requires
        agree(s, s2, m),
        0 <= p < s.len(),
        s[p] == OPEN,
        within(s, p, read_atom(s, p), m),
    ensures
        read_atom(s2, p) == read_atom(s, p),
    decreases room(s, p), 0int,
{
    lemma_blanks(s, p + 1);
    let a = p + 1 + blanks(s, p + 1);
    lemma_sum_shape(s, a);
    match read_sum(s, a) {
        Ok((t, n)) => {
            lemma_blanks(s, a + n);
            let close = a + n + blanks(s, a + n);
            assert(close < m);
            lemma_agree_at(s, s2, m, p);
            lemma_blanks_local(s, s2, m, p + 1);
            lemma_sum_local(s, s2, m, a);
            lemma_blanks_local(s, s2, m, a + n);
        },
        Err(f) => {
            lemma_agree_at(s, s2, m, p);
            lemma_blanks_local(s, s2, m, p + 1);
            lemma_sum_local(s, s2, m, a);
        },
    }
}

/// What is read as an atom at `p`, where no `-` stands, or the flaw met
/// there, is the same in a line with the same first `m` bytes.
proof fn lemma_atom_local(s: Seq<u8>, s2: Seq<u8>, m: int, p: int)
    requires
        agree(s, s2, m),
        0 <= p <= s.len(),
        !(p < s.len() && s[p] == MINUS),
        within(s, p, read_atom(s, p), m),
    ensures
        read_atom(s2, p) == read_atom(s, p),
    decreases room(s, p), 1int,
{
    if p < s.len() && is_digit(s[p]) {
        lemma_number_local(s, s2, m, p);
    } else if p < s.len() && s[p] == OPEN {
        lemma_parentheses_local(s, s2, m, p);
    } else {
        lemma_agree_at(s, s2, m, p);
    }
}

/// What is read as a factor at `p`, or the flaw met there, is the same in
/// a line with the same first `m` bytes.
proof fn lemma_factor_local(s: Seq<u8>, s2: Seq<u8>, m: int, p: int)
    requires
        agree(s, s2, m),
        0 <= p <= s.len(),
        within(s, p, read_factor(s, p), m),
    ensures
        read_factor(s2, p) == read_factor(s, p),
    decreases room(s, p), 2int,
{
    if p < s.len() && s[p] == MINUS {
        lemma_blanks(s, p + 1);
        let a = p + 1 + blanks(s, p + 1);
        lemma_factor_shape(s, a);
        lemma_agree_at(s, s2, m, p);
        lemma_blanks_local(s, s2, m, p + 1);
        lemma_factor_local(s, s2, m, a);
    } else {
        lemma_factor_shape(s, p);
        lemma_agree_at(s, s2, m, p);
        lemma_atom_local(s, s2, m, p);
    }
}

/// What is read on as a product from `e`, or the flaw met there, is the
/// same in a line with the same first `m` bytes.
proof fn lemma_product_from_local(s: Seq<u8>, s2: Seq<u8>, m: int, e: int, acc: Ast)
    requires
        agree(s, s2, m),
        0 <= e <= s.len(),
        within_sign(s, e, read_product_from(s, e, acc), m),
    ensures
        read_product_from(s2, e, acc) == read_product_from(s, e, acc),
    decreases room(s, e), 3int,
{
    lemma_blanks(s, e);
    lemma_product_from_shape(s, e, acc);
    let o = e + blanks(s, e);
    lemma_blanks_local(s, s2, m, e);
    if is_product_sign(s[o]) {
        lemma_blanks(s, o + 1);
        let b = o + 1 + blanks(s, o + 1);
        lemma_factor_shape(s, b);
        match read_factor(s, b) {
            Ok((right, n)) => {
                let node = join(s[o], acc, right);
                lemma_blanks(s, b + n);
                lemma_product_from_shape(s, b + n, node);
                assert(b + n + blanks(s, b + n) < m);
                lemma_blanks_local(s, s2, m, o + 1);
                lemma_factor_local(s, s2, m, b);
                lemma_product_from_local(s, s2, m, b + n, node);
            },
            Err(f) => {
                lemma_blanks_local(s, s2, m, o + 1);
                lemma_factor_local(s, s2, m, b);
            },
        }
    }
}

/// What is read as a product at `p`, or the flaw met there, is the same in
/// a line with the same first `m` bytes.
proof fn lemma_product_local(s: Seq<u8>, s2: Seq<u8>, m: int, p: int)
    requires
        agree(s, s2, m),
        0 <= p <= s.len(),
        within_sign(s, p, read_product(s, p), m),
    ensures
        read_product(s2, p) == read_product(s, p),
    decreases room(s, p), 4int,
{
    lemma_factor_shape(s, p);
    match read_factor(s, p) {
        Ok((first, n)) => {
            lemma_blanks(s, p + n);
            lemma_product_from_shape(s, p + n, first);
            assert(p + n + blanks(s, p + n) < m);
            lemma_factor_local(s, s2, m, p);
            lemma_product_from_local(s, s2, m, p + n, first);
        },
        Err(f) => {
            lemma_factor_local(s, s2, m, p);
        },
    }
}

/// What is read on as a sum from `e`, or the flaw met there, is the same
/// in a line with the same first `m` bytes.
proof fn lemma_sum_from_local(s: Seq<u8>, s2: Seq<u8>, m: int, e: int, acc: Ast)
    requires
        agree(s, s2, m),
        0 <= e <= s.len(),
        within_sign(s, e, read_sum_from(s, e, acc), m),
    ensures
        read_sum_from(s2, e, acc) == read_sum_from(s, e, acc),
    decreases room(s, e), 5int,
{
    lemma_blanks(s, e);
    lemma_sum_from_shape(s, e, acc);
    let o = e + blanks(s, e);
    lemma_blanks_local(s, s2, m, e);
    if is_sum_sign(s[o]) {
        lemma_blanks(s, o + 1);
        let b = o + 1 + blanks(s, o + 1);
        lemma_product_shape(s, b);
        match read_product(s, b) {
            Ok((right, n)) => {
                let node = join(s[o], acc, right);
                lemma_blanks(s, b + n);
                lemma_sum_from_shape(s, b + n, node);
                assert(b + n + blanks(s, b + n) < m);
                lemma_blanks_local(s, s2, m, o + 1);
                lemma_product_local(s, s2, m, b);
                lemma_sum_from_local(s, s2, m, b + n, node);
            },
            Err(f) => {
                lemma_blanks_local(s, s2, m, o + 1);
                lemma_product_local(s, s2, m, b);
            },
        }
    }
}

/// What is read as a sum at `p`, or the flaw met there, is the same in a
/// line with the same first `m` bytes.
proof fn lemma_sum_local(s: Seq<u8>, s2: Seq<u8>, m: int, p: int)
    requires
        agree(s, s2, m),
        0 <= p <= s.len(),
        within_sign(s, p, read_sum(s, p), m),
    ensures
        read_sum(s2, p) == read_sum(s, p),
    decreases room(s, p), 6int,
{
    lemma_product_shape(s, p);
    match read_product(s, p) {
        Ok((first, n)) => {
            lemma_blanks(s, p + n);
            lemma_sum_from_shape(s, p + n, first);
            assert(p + n + blanks(s, p + n) < m);
            lemma_product_local(s, s2, m, p);
            lemma_sum_from_local(s, s2, m, p + n, first);
        },
        Err(f) => {
            lemma_product_local(s, s2, m, p);
        },
    }
}

/// A flaw is final: a line that begins with the bytes on which the flaw of
/// `s` rests has the same flaw, and so writes no tree, whatever follows
/// those bytes.
pub proof fn law_flaw_is_final(s: Seq<u8>, s2: Seq<u8>)
    requires
        read_line(s) is Err,
        same(s, 0, s2, 0, reach(s, read_line(s)->Err_0)),
    ensures
        read_line(s2) == read_line(s),
        forall|t: Ast| !is_line(s2, t),
{
    let f = read_line(s)->Err_0;
    let m = reach(s, f);
    assert(agree(s, s2, m)) by {
        reveal(agree);
    }
    assert(f.at < m) by {
        law_flaw_holds(s);
        lemma_reach(s, f);
    }
    lemma_blanks(s, 0);
    let i = blanks(s, 0) as int;
    lemma_sum_shape(s, i);
    match read_sum(s, i) {
        Ok((t, n)) => {
            lemma_blanks(s, i + n);
            lemma_blanks_local(s, s2, m, 0);
            lemma_sum_local(s, s2, m, i);
            lemma_blanks_local(s, s2, m, i + n);
        },
        Err(_) => {
            lemma_blanks_local(s, s2, m, 0);
            lemma_sum_local(s, s2, m, i);
        },
    }
    assert forall|t: Ast| !is_line(s2, t) by {
        if is_line(s2, t) {
            lemma_line_complete(s2, t);
        }
    }
}

} // verus!
