//! What a flaw tells of the line: what stands at its position, and that the
//! line up to there is the beginning of some line that writes a tree.
use vstd::prelude::*;
use crate::agreement::{lemma_factor_sound, lemma_product_sound, lemma_sum_sound};
use crate::ast::Ast;
use crate::error::{flaw, Flaw, SyntaxErrorKind};
use crate::grammar::{
    begins_operand, enclosed, infix, is_atom, is_factor, is_line, is_numeral, is_product, is_sum,
    lemma_factor_ends, lemma_factor_is_sum, lemma_product_ends, lemma_sum_ends, negation,
};
use crate::moving::{lemma_product_moves, lemma_sum_moves, same};
use crate::reading::{
    is_product_sign, is_sum_sign, join, read_atom, read_factor, read_line, read_product,
    read_product_from, read_sum, read_sum_from,
};
use crate::text::{
    all_blank, blanks, decimal, digits, is_blank, is_digit, lemma_blanks, room, CLOSE, MINUS,
    OPEN, ZERO,
};

verus! {

/// What a flaw says is true of the line `s`: it lies inside the line or at
/// its end, it names the byte that stands there, and that byte is none that
/// could have stood there (or, for a number, the digits from there on write
/// more than an `i64` holds).
pub open spec fn holds(s: Seq<u8>, f: Flaw) -> bool {
    &&& 0 <= f.at <= s.len()
    &&& f == flaw(s, f.at, f.kind)
    &&& match f.kind {
        SyntaxErrorKind::UnexpectedToken => !(f.at < s.len() && begins_operand(s[f.at])),
        SyntaxErrorKind::MissingClosingParen => !(f.at < s.len() && (s[f.at] == CLOSE || is_blank(
            s[f.at],
        ) || is_sum_sign(s[f.at]) || is_product_sign(s[f.at]))),
        SyntaxErrorKind::MalformedInteger => f.at < s.len() && is_digit(s[f.at]) && decimal(
            s,
            f.at,
            f.at + digits(s, f.at),
        ) > i64::MAX,
        SyntaxErrorKind::TrailingInput => f.at < s.len() && !(is_blank(s[f.at]) || is_sum_sign(
            s[f.at],
        ) || is_product_sign(s[f.at])),
    }
}

/// The flaw of an atom read at `p`, where no `-` stands, lies at or behind
/// `p`, and holds.
pub proof fn lemma_atom_flaw(s: Seq<u8>, p: int)
    requires
        0 <= p <= s.len(),
        !(p < s.len() && s[p] == MINUS),
    ensures
        read_atom(s, p) matches Err(f) ==> p <= f.at && holds(s, f) && f.kind
            != SyntaxErrorKind::TrailingInput,
    decreases room(s, p), 0int,
{
    if p < s.len() && is_digit(s[p]) {
    } else if p < s.len() && s[p] == OPEN {
        lemma_blanks(s, p + 1);
        let a = p + 1 + blanks(s, p + 1);
        lemma_sum_flaw(s, a);
        lemma_sum_sound(s, a);
        if let Ok((t, n)) = read_sum(s, a) {
            lemma_sum_ends(s, a, a + n, t);
            lemma_blanks(s, a + n);
            lemma_sum_stop(s, a);
        }
    }
}

/// The flaw of a factor read at `p` lies at or behind `p`, and holds.
pub proof fn lemma_factor_flaw(s: Seq<u8>, p: int)
    requires
        0 <= p <= s.len(),
    ensures
        read_factor(s, p) matches Err(f) ==> p <= f.at && holds(s, f) && f.kind
            != SyntaxErrorKind::TrailingInput,
    decreases room(s, p), 1int,
{
    if p < s.len() && s[p] == MINUS {
        lemma_blanks(s, p + 1);
        lemma_factor_flaw(s, p + 1 + blanks(s, p + 1));
    } else {
        lemma_atom_flaw(s, p);
    }
}

/// The flaw met while a product is read on from `e` lies behind a sign
/// that follows `e`, and holds.
pub proof fn lemma_product_from_flaw(s: Seq<u8>, e: int, acc: Ast)
    requires
        0 <= e <= s.len(),
    ensures
        read_product_from(s, e, acc) matches Err(f) ==> e + blanks(s, e) < f.at && holds(s, f)
            && f.kind != SyntaxErrorKind::TrailingInput,
    decreases room(s, e), 2int,
{
    lemma_blanks(s, e);
    let o = e + blanks(s, e);
    if o < s.len() && is_product_sign(s[o]) {
        lemma_blanks(s, o + 1);
        let b = o + 1 + blanks(s, o + 1);
        lemma_factor_flaw(s, b);
        lemma_factor_sound(s, b);
        if let Ok((right, n)) = read_factor(s, b) {
            lemma_factor_ends(s, b, b + n, right);
            lemma_blanks(s, b + n);
            lemma_product_from_flaw(s, b + n, join(s[o], acc, right));
        }
    }
}

/// The flaw of a product read at `p` lies at or behind `p`, and holds.
pub proof fn lemma_product_flaw(s: Seq<u8>, p: int)
    requires
        0 <= p <= s.len(),
    ensures
        read_product(s, p) matches Err(f) ==> p <= f.at && holds(s, f) && f.kind
            != SyntaxErrorKind::TrailingInput,
    decreases room(s, p), 3int,
{
    lemma_factor_flaw(s, p);
    lemma_factor_sound(s, p);
    if let Ok((first, n)) = read_factor(s, p) {
        lemma_factor_ends(s, p, p + n, first);
        lemma_product_from_flaw(s, p + n, first);
    }
}

/// The flaw met while a sum is read on from `e` lies behind a sign that
/// follows `e`, and holds.
pub proof fn lemma_sum_from_flaw(s: Seq<u8>, e: int, acc: Ast)
    requires
        0 <= e <= s.len(),
    ensures
        read_sum_from(s, e, acc) matches Err(f) ==> e + blanks(s, e) < f.at && holds(s, f)
            && f.kind != SyntaxErrorKind::TrailingInput,
    decreases room(s, e), 4int,
{
    lemma_blanks(s, e);
    let o = e + blanks(s, e);
    if o < s.len() && is_sum_sign(s[o]) {
        lemma_blanks(s, o + 1);
        let b = o + 1 + blanks(s, o + 1);
        lemma_product_flaw(s, b);
        lemma_product_sound(s, b);
        if let Ok((right, n)) = read_product(s, b) {
            lemma_product_ends(s, b, b + n, right);
            lemma_blanks(s, b + n);
            lemma_sum_from_flaw(s, b + n, join(s[o], acc, right));
        }
    }
}

/// The flaw of a sum read at `p` lies at or behind `p`, and holds.
pub proof fn lemma_sum_flaw(s: Seq<u8>, p: int)
    requires
        0 <= p <= s.len(),
    ensures
        read_sum(s, p) matches Err(f) ==> p <= f.at && holds(s, f) && f.kind
            != SyntaxErrorKind::TrailingInput,
    decreases room(s, p), 5int,
{
    lemma_product_flaw(s, p);
    lemma_product_sound(s, p);
    if let Ok((first, n)) = read_product(s, p) {
        lemma_product_ends(s, p, p + n, first);
        lemma_sum_from_flaw(s, p + n, first);
    }
}

/// Where the reading of a product stops, no `*` or `/` is next.
pub proof fn lemma_product_from_stop(s: Seq<u8>, e: int, acc: Ast)
    requires
        0 <= e <= s.len(),
    ensures
        read_product_from(s, e, acc) matches Ok((_, m)) ==> e + m <= s.len() && !(e + m + blanks(
            s,
            e + m,
        ) < s.len() && is_product_sign(s[e + m + blanks(s, e + m)])),
    decreases room(s, e), 2int,
{
    lemma_blanks(s, e);
    let o = e + blanks(s, e);
    if o < s.len() && is_product_sign(s[o]) {
        lemma_blanks(s, o + 1);
        let b = o + 1 + blanks(s, o + 1);
        lemma_factor_sound(s, b);
        if let Ok((right, n)) = read_factor(s, b) {
            lemma_factor_ends(s, b, b + n, right);
            lemma_product_from_stop(s, b + n, join(s[o], acc, right));
        }
    }
}

/// Where the reading of a sum stops, no operator is next.
pub proof fn lemma_sum_from_stop(s: Seq<u8>, e: int, acc: Ast)
    requires
        0 <= e <= s.len(),
        !(e + blanks(s, e) < s.len() && is_product_sign(s[e + blanks(s, e)])),
    ensures
        read_sum_from(s, e, acc) matches Ok((_, m)) ==> e + m <= s.len() && !(e + m + blanks(
            s,
            e + m,
        ) < s.len() && (is_sum_sign(s[e + m + blanks(s, e + m)]) || is_product_sign(
            s[e + m + blanks(s, e + m)],
        ))),
    decreases room(s, e), 4int,
{
    lemma_blanks(s, e);
    let o = e + blanks(s, e);
    if o < s.len() && is_sum_sign(s[o]) {
        lemma_blanks(s, o + 1);
        let b = o + 1 + blanks(s, o + 1);
        lemma_product_sound(s, b);
        if let Ok((right, n)) = read_product(s, b) {
            lemma_product_ends(s, b, b + n, right);
            lemma_product_stop(s, b);
            lemma_sum_from_stop(s, b + n, join(s[o], acc, right));
        }
    }
}

/// Behind a product that was read, no `*` or `/` is next.
pub proof fn lemma_product_stop(s: Seq<u8>, p: int)
    requires
        0 <= p <= s.len(),
    ensures
        read_product(s, p) matches Ok((_, n)) ==> p + n <= s.len() && !(p + n + blanks(s, p + n)
            < s.len() && is_product_sign(s[p + n + blanks(s, p + n)])),
{
    lemma_factor_sound(s, p);
    if let Ok((first, n)) = read_factor(s, p) {
        lemma_factor_ends(s, p, p + n, first);
        lemma_product_from_stop(s, p + n, first);
    }
}

/// Behind a sum that was read, no operator is next.
pub proof fn lemma_sum_stop(s: Seq<u8>, p: int)
    requires
        0 <= p <= s.len(),
    ensures
        read_sum(s, p) matches Ok((_, n)) ==> p + n <= s.len() && !(p + n + blanks(s, p + n)
            < s.len() && (is_sum_sign(s[p + n + blanks(s, p + n)]) || is_product_sign(
            s[p + n + blanks(s, p + n)],
        ))),
{
    lemma_product_sound(s, p);
    if let Ok((first, n)) = read_product(s, p) {
        lemma_product_ends(s, p, p + n, first);
        lemma_product_stop(s, p);
        lemma_sum_from_stop(s, p + n, first);
    }
}

/// The flaw of a line holds of it.
pub proof fn law_flaw_holds(s: Seq<u8>)
    ensures
        read_line(s) matches Err(f) ==> holds(s, f),
{
    lemma_blanks(s, 0);
    let i = blanks(s, 0) as int;
    lemma_sum_flaw(s, i);
    lemma_sum_sound(s, i);
    if let Ok((t, n)) = read_sum(s, i) {
        lemma_sum_ends(s, i, i + n, t);
        lemma_blanks(s, i + n);
        lemma_sum_stop(s, i);
    }
}

/// The line up to `at` and a `0` behind it: an atom begins at `at`.
proof fn lemma_zero_at(s: Seq<u8>, at: int) -> (w: Seq<u8>)
    requires
        0 <= at <= s.len(),
    ensures
        same(s, 0, w, 0, at),
        is_atom(w, at, w.len() as int, Ast::Num(0)),
{
    let w = s.subrange(0, at).push(ZERO);
    assert(decimal(w, at, at) == 0);
    assert(decimal(w, at, at + 1) == decimal(w, at, at) * 10 + (w[at] - ZERO) as nat);
    assert(is_numeral(w, at, at + 1, 0));
    w
}

/// Behind `(`, blanks and a sum that ends with the line, a `)` makes an
/// atom.
proof fn lemma_close_after(s: Seq<u8>, w0: Seq<u8>, at: int, p: int, a: int, t: Ast) -> (w: Seq<u8>)
    requires
        same(s, 0, w0, 0, at),
        0 <= p < a <= at,
        s[p] == OPEN,
        all_blank(s, p + 1, a),
        is_sum(w0, a, w0.len() as int, t),
    ensures
        same(s, 0, w, 0, at),
        is_atom(w, p, w.len() as int, t),
{
    let w = w0.push(CLOSE);
    let n = w0.len() as int;
    lemma_sum_ends(w0, a, n, t);
    assert(same(w0, 0, w, 0, n));
    lemma_sum_moves(w0, 0, w, 0, n, a, n, t);
    assert forall|x: int| p + 1 <= x < a implies is_blank(#[trigger] w[x]) by {
        assert(s[x] == w0[x]);
    }
    assert(s[p] == w0[p]);
    assert(enclosed(w, p, a, n, n + 1));
    assert forall|x: int| 0 <= x < at implies #[trigger] s[x] == w[x] by {
        assert(s[x] == w0[x]);
    }
    w
}

/// Behind `(`, blanks, a sum and blanks up to `close`, a `)` makes an atom.
proof fn lemma_close_at(s: Seq<u8>, p: int, a: int, b: int, close: int, t: Ast) -> (w: Seq<u8>)
    requires
        0 <= p < a,
        b <= close <= s.len(),
        s[p] == OPEN,
        all_blank(s, p + 1, a),
        is_sum(s, a, b, t),
        all_blank(s, b, close),
    ensures
        same(s, 0, w, 0, close),
        is_atom(w, p, w.len() as int, t),
{
    let w = s.subrange(0, close).push(CLOSE);
    lemma_sum_ends(s, a, b, t);
    assert(same(s, 0, w, 0, close));
    lemma_sum_moves(s, 0, w, 0, close, a, b, t);
    crate::moving::lemma_blank_moves(s, 0, w, 0, close, p + 1, a);
    crate::moving::lemma_blank_moves(s, 0, w, 0, close, b, close);
    assert(s[p] == w[p]);
    assert(enclosed(w, p, a, b, close + 1));
    w
}

/// Behind `-` and blanks, a factor that ends with the line makes a factor.
proof fn lemma_negate_after(s: Seq<u8>, w: Seq<u8>, at: int, p: int, a: int, t: Ast)
    requires
        same(s, 0, w, 0, at),
        0 <= p < a <= at,
        s[p] == MINUS,
        all_blank(s, p + 1, a),
        is_factor(w, a, w.len() as int, t),
    ensures
        is_factor(w, p, w.len() as int, Ast::Neg(Box::new(t))),
{
    lemma_factor_ends(w, a, w.len() as int, t);
    crate::moving::lemma_blank_moves(s, 0, w, 0, at, p + 1, a);
    assert(s[p] == w[p]);
    assert(negation(w, p, a));
}

/// Behind a product and a sign, a factor that ends with the line makes a
/// product.
proof fn lemma_factor_after(
    s: Seq<u8>,
    w: Seq<u8>,
    at: int,
    i: int,
    e: int,
    o: int,
    b: int,
    acc: Ast,
    right: Ast,
)
    requires
        same(s, 0, w, 0, at),
        is_product(s, i, e, acc),
        infix(s, e, o, b, s[o]),
        is_product_sign(s[o]),
        b <= at,
        is_factor(w, b, w.len() as int, right),
    ensures
        is_product(w, i, w.len() as int, join(s[o], acc, right)),
{
    let node = join(s[o], acc, right);
    lemma_product_ends(s, i, e, acc);
    lemma_factor_ends(w, b, w.len() as int, right);
    lemma_product_moves(s, 0, w, 0, at, i, e, acc);
    crate::moving::lemma_blank_moves(s, 0, w, 0, at, e, o);
    crate::moving::lemma_blank_moves(s, 0, w, 0, at, o + 1, b);
    assert(s[o] == w[o]);
    assert(infix(w, e, o, b, node.sign()));
}

/// Behind a sum and a sign, a product that ends with the line makes a sum.
proof fn lemma_product_after(
    s: Seq<u8>,
    w: Seq<u8>,
    at: int,
    i: int,
    e: int,
    o: int,
    b: int,
    acc: Ast,
    right: Ast,
)
    requires
        same(s, 0, w, 0, at),
        is_sum(s, i, e, acc),
        infix(s, e, o, b, s[o]),
        is_sum_sign(s[o]),
        b <= at,
        is_product(w, b, w.len() as int, right),
    ensures
        is_sum(w, i, w.len() as int, join(s[o], acc, right)),
{
    let node = join(s[o], acc, right);
    lemma_sum_ends(s, i, e, acc);
    lemma_product_ends(w, b, w.len() as int, right);
    lemma_sum_moves(s, 0, w, 0, at, i, e, acc);
    crate::moving::lemma_blank_moves(s, 0, w, 0, at, e, o);
    crate::moving::lemma_blank_moves(s, 0, w, 0, at, o + 1, b);
    assert(s[o] == w[o]);
    assert(infix(w, e, o, b, node.sign()));
}

/// Where no atom can be read at `p`, the line up to the flaw begins a line
/// in which an atom stands from `p` to the end.
proof fn lemma_atom_goes_on(s: Seq<u8>, p: int) -> (r: (Seq<u8>, Ast))
    requires
        0 <= p <= s.len(),
        read_atom(s, p) is Err,
    ensures
        p <= read_atom(s, p)->Err_0.at,
        same(s, 0, r.0, 0, read_atom(s, p)->Err_0.at),
        is_atom(r.0, p, r.0.len() as int, r.1),
    decreases room(s, p), 0int,
{
    if p < s.len() && is_digit(s[p]) {
        (lemma_zero_at(s, p), Ast::Num(0))
    } else if p < s.len() && s[p] == OPEN {
        lemma_blanks(s, p + 1);
        let a = p + 1 + blanks(s, p + 1);
        match read_sum(s, a) {
            Err(f) => {
                let (w0, t0) = lemma_sum_goes_on(s, a);
                (lemma_close_after(s, w0, f.at, p, a, t0), t0)
            },
            Ok((t, n)) => {
                lemma_sum_sound(s, a);
                lemma_sum_ends(s, a, a + n, t);
                lemma_blanks(s, a + n);
                let close = a + n + blanks(s, a + n);
                (lemma_close_at(s, p, a, a + n, close, t), t)
            },
        }
    } else {
        (lemma_zero_at(s, p), Ast::Num(0))
    }
}

/// Where no factor can be read at `p`, the line up to the flaw begins a
/// line in which a factor stands from `p` to the end.
proof fn lemma_factor_goes_on(s: Seq<u8>, p: int) -> (r: (Seq<u8>, Ast))
    requires
        0 <= p <= s.len(),
        read_factor(s, p) is Err,
    ensures
        p <= read_factor(s, p)->Err_0.at,
        same(s, 0, r.0, 0, read_factor(s, p)->Err_0.at),
        is_factor(r.0, p, r.0.len() as int, r.1),
    decreases room(s, p), 1int,
{
    if p < s.len() && s[p] == MINUS {
        lemma_blanks(s, p + 1);
        let a = p + 1 + blanks(s, p + 1);
        let (w, t) = lemma_factor_goes_on(s, a);
        lemma_negate_after(s, w, read_factor(s, a)->Err_0.at, p, a, t);
        (w, Ast::Neg(Box::new(t)))
    } else {
        lemma_atom_goes_on(s, p)
    }
}

/// Where a product cannot be read on from `e`, the line up to the flaw
/// begins a line in which a product stands from `i` to the end.
proof fn lemma_product_from_goes_on(s: Seq<u8>, i: int, e: int, acc: Ast) -> (r: (Seq<u8>, Ast))
    requires
        is_product(s, i, e, acc),
        read_product_from(s, e, acc) is Err,
    ensures
        e <= read_product_from(s, e, acc)->Err_0.at,
        same(s, 0, r.0, 0, read_product_from(s, e, acc)->Err_0.at),
        is_product(r.0, i, r.0.len() as int, r.1),
    decreases room(s, e), 2int,
{
    lemma_product_ends(s, i, e, acc);
    lemma_blanks(s, e);
    let o = e + blanks(s, e);
    lemma_blanks(s, o + 1);
    let b = o + 1 + blanks(s, o + 1);
    assert(infix(s, e, o, b, s[o]));
    match read_factor(s, b) {
        Err(f) => {
            let (w, right) = lemma_factor_goes_on(s, b);
            lemma_factor_after(s, w, f.at, i, e, o, b, acc, right);
            (w, join(s[o], acc, right))
        },
        Ok((right, n)) => {
            lemma_factor_sound(s, b);
            lemma_factor_ends(s, b, b + n, right);
            let node = join(s[o], acc, right);
            assert(infix(s, e, o, b, node.sign()));
            assert(is_product(s, i, b + n, node));
            lemma_product_from_goes_on(s, i, b + n, node)
        },
    }
}

/// Where no product can be read at `p`, the line up to the flaw begins a
/// line in which a product stands from `p` to the end.
proof fn lemma_product_goes_on(s: Seq<u8>, p: int) -> (r: (Seq<u8>, Ast))
    requires
        0 <= p <= s.len(),
        read_product(s, p) is Err,
    ensures
        p <= read_product(s, p)->Err_0.at,
        same(s, 0, r.0, 0, read_product(s, p)->Err_0.at),
        is_product(r.0, p, r.0.len() as int, r.1),
    decreases room(s, p), 3int,
{
    match read_factor(s, p) {
        Err(f) => {
            let (w, t) = lemma_factor_goes_on(s, p);
            lemma_factor_is_sum(w, p, w.len() as int, t);
            (w, t)
        },
        Ok((first, n)) => {
            lemma_factor_sound(s, p);
            lemma_factor_is_sum(s, p, p + n, first);
            lemma_product_from_goes_on(s, p, p + n, first)
        },
    }
}

/// Where a sum cannot be read on from `e`, the line up to the flaw begins
/// a line in which a sum stands from `i` to the end.
proof fn lemma_sum_from_goes_on(s: Seq<u8>, i: int, e: int, acc: Ast) -> (r: (Seq<u8>, Ast))
    requires
        is_sum(s, i, e, acc),
        read_sum_from(s, e, acc) is Err,
    ensures
        e <= read_sum_from(s, e, acc)->Err_0.at,
        same(s, 0, r.0, 0, read_sum_from(s, e, acc)->Err_0.at),
        is_sum(r.0, i, r.0.len() as int, r.1),
    decreases room(s, e), 4int,
{
    lemma_sum_ends(s, i, e, acc);
    lemma_blanks(s, e);
    let o = e + blanks(s, e);
    lemma_blanks(s, o + 1);
    let b = o + 1 + blanks(s, o + 1);
    assert(infix(s, e, o, b, s[o]));
    match read_product(s, b) {
        Err(f) => {
            let (w, right) = lemma_product_goes_on(s, b);
            lemma_product_after(s, w, f.at, i, e, o, b, acc, right);
            (w, join(s[o], acc, right))
        },
        Ok((right, n)) => {
            lemma_product_sound(s, b);
            lemma_product_ends(s, b, b + n, right);
            let node = join(s[o], acc, right);
            assert(infix(s, e, o, b, node.sign()));
            assert(is_sum(s, i, b + n, node));
            lemma_sum_from_goes_on(s, i, b + n, node)
        },
    }
}

/// Where no sum can be read at `p`, the line up to the flaw begins a line
/// in which a sum stands from `p` to the end.
proof fn lemma_sum_goes_on(s: Seq<u8>, p: int) -> (r: (Seq<u8>, Ast))
    requires
        0 <= p <= s.len(),
        read_sum(s, p) is Err,
    ensures
        p <= read_sum(s, p)->Err_0.at,
        same(s, 0, r.0, 0, read_sum(s, p)->Err_0.at),
        is_sum(r.0, p, r.0.len() as int, r.1),
    decreases room(s, p), 5int,
{
    match read_product(s, p) {
        Err(f) => {
            let (w, t) = lemma_product_goes_on(s, p);
            (w, t)
        },
        Ok((first, n)) => {
            lemma_product_sound(s, p);
            lemma_sum_from_goes_on(s, p, p + n, first)
        },
    }
}

/// Up to its flaw a line is good: some line that begins with the same bytes
/// writes a tree.
pub proof fn law_flaw_follows_good_start(s: Seq<u8>)
    requires
        read_line(s) is Err,
    ensures
        exists|w: Seq<u8>, t: Ast| same(s, 0, w, 0, read_line(s)->Err_0.at) && #[trigger] is_line(w, t),
{
    let at = read_line(s)->Err_0.at;
    lemma_blanks(s, 0);
    let i = blanks(s, 0) as int;
    match read_sum(s, i) {
        Err(f) => {
            let (w, t) = lemma_sum_goes_on(s, i);
            crate::moving::lemma_blank_moves(s, 0, w, 0, at, 0, i);
            crate::grammar::lemma_sum_is_line(w, i, w.len() as int, t);
            assert(same(s, 0, w, 0, at) && is_line(w, t));
        },
        Ok((t, n)) => {
            lemma_sum_sound(s, i);
            lemma_sum_ends(s, i, i + n, t);
            lemma_blanks(s, i + n);
            let w = s.subrange(0, at);
            assert(same(s, 0, w, 0, at));
            lemma_sum_moves(s, 0, w, 0, at, i, i + n, t);
            crate::moving::lemma_blank_moves(s, 0, w, 0, at, 0, i);
            crate::moving::lemma_blank_moves(s, 0, w, 0, at, i + n, at);
            crate::grammar::lemma_sum_is_line(w, i, i + n, t);
            assert(same(s, 0, w, 0, at) && is_line(w, t));
        },
    }
}

} // verus!
