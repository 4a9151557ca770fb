//! What a reading of a line from left to right yields: the tree, or the
//! first flaw that it meets.
//!
//! Each function here reads one construct that begins at a position `p` of
//! the line, with no blank before it, and gives its tree together with its
//! length in bytes.
use vstd::prelude::*;
use crate::ast::Ast;
use crate::error::{flaw, Flaw, SyntaxErrorKind};
use crate::text::{blanks, decimal, digits, is_digit, room, CLOSE, MINUS, OPEN, PLUS, SLASH, STAR};

verus! {

/// The outcome of reading one construct: its tree and its length, or a flaw.
pub type Reading = Result<(Ast, nat), Flaw>;

/// Whether `b` is an operator of a sum: `+` or `-`.
pub open spec fn is_sum_sign(b: u8) -> bool {
    b == PLUS || b == MINUS
}

/// Whether `b` is an operator of a product: `*` or `/`.
pub open spec fn is_product_sign(b: u8) -> bool {
    b == STAR || b == SLASH
}

/// The tree of `left sign right`.
pub open spec fn join(sign: u8, left: Ast, right: Ast) -> Ast {
    if sign == PLUS {
        Ast::Add(Box::new(left), Box::new(right))
    } else if sign == MINUS {
        Ast::Sub(Box::new(left), Box::new(right))
    } else if sign == STAR {
        Ast::Mul(Box::new(left), Box::new(right))
    } else {
        Ast::Div(Box::new(left), Box::new(right))
    }
}

/// The reading of a construct that begins at `p`, of which a part up to
/// `end` has been read and `rest` is the reading of what follows.
pub open spec fn resumed(p: int, end: int, rest: Reading) -> Reading {
    match rest {
        Ok((tree, m)) => Ok((tree, (end - p + m) as nat)),
        Err(f) => Err(f),
    }
}

/// Reads an atom at `p`: a run of digits, or an expression in parentheses.
pub open spec fn read_atom(s: Seq<u8>, p: int) -> Reading
    decreases room(s, p), 0int,
{
    if 0 <= p < s.len() && is_digit(s[p]) {
        let n = digits(s, p);
        let v = decimal(s, p, p + n);
        if v <= i64::MAX {
            Ok((Ast::Num(v as i64), n))
        } else {
            Err(flaw(s, p, SyntaxErrorKind::MalformedInteger))
        }
    } else if 0 <= p < s.len() && s[p] == OPEN {
        let before = blanks(s, p + 1);
        match read_sum(s, p + 1 + before) {
            Ok((tree, n)) => {
                let after = blanks(s, p + 1 + before + n);
                let close = p + 1 + before + n + after;
                if close < s.len() && s[close] == CLOSE {
                    Ok((tree, 1 + before + n + after + 1))
                } else {
                    Err(flaw(s, close, SyntaxErrorKind::MissingClosingParen))
                }
            },
            Err(f) => Err(f),
        }
    } else {
        Err(flaw(s, p, SyntaxErrorKind::UnexpectedToken))
    }
}

/// Reads a factor at `p`: a `-` and the factor that it negates, or an atom.
pub open spec fn read_factor(s: Seq<u8>, p: int) -> Reading
    decreases room(s, p), 1int,
{
    if 0 <= p < s.len() && s[p] == MINUS {
        let between = blanks(s, p + 1);
        match read_factor(s, p + 1 + between) {
            Ok((tree, n)) => Ok((Ast::Neg(Box::new(tree)), 1 + between + n)),
            Err(f) => Err(f),
        }
    } else {
        read_atom(s, p)
    }
}

/// Goes on reading a product of which `acc` has been read and ends at `e`:
/// as long as `*` or `/` follows, the factor behind it becomes the right
/// operand and what was read so far the left one. The length is counted
/// from `e`.
pub open spec fn read_product_from(s: Seq<u8>, e: int, acc: Ast) -> Reading
    decreases room(s, e), 2int,
{
    let before = blanks(s, e);
    let sign = e + before;
    if 0 <= sign < s.len() && is_product_sign(s[sign]) {
        let after = blanks(s, sign + 1);
        match read_factor(s, sign + 1 + after) {
            Ok((right, n)) => match read_product_from(
                s,
                sign + 1 + after + n,
                join(s[sign], acc, right),
            ) {
                Ok((tree, m)) => Ok((tree, before + 1 + after + n + m)),
                Err(f) => Err(f),
            },
            Err(f) => Err(f),
        }
    } else {
        Ok((acc, 0))
    }
}

/// Reads a product at `p`: a factor, then any number of `*` or `/` with a
/// factor each, grouped from the left.
pub open spec fn read_product(s: Seq<u8>, p: int) -> Reading
    decreases room(s, p), 3int,
{
    match read_factor(s, p) {
        Ok((first, n)) => match read_product_from(s, p + n, first) {
            Ok((tree, m)) => Ok((tree, n + m)),
            Err(f) => Err(f),
        },
        Err(f) => Err(f),
    }
}

/// Goes on reading a sum of which `acc` has been read and ends at `e`, as
/// [`read_product_from`] does for a product, with `+` and `-` and a product
/// as each right operand.
pub open spec fn read_sum_from(s: Seq<u8>, e: int, acc: Ast) -> Reading
    decreases room(s, e), 4int,
{
    let before = blanks(s, e);
    let sign = e + before;
    if 0 <= sign < s.len() && is_sum_sign(s[sign]) {
        let after = blanks(s, sign + 1);
        match read_product(s, sign + 1 + after) {
            Ok((right, n)) => match read_sum_from(
                s,
                sign + 1 + after + n,
                join(s[sign], acc, right),
            ) {
                Ok((tree, m)) => Ok((tree, before + 1 + after + n + m)),
                Err(f) => Err(f),
            },
            Err(f) => Err(f),
        }
    } else {
        Ok((acc, 0))
    }
}

/// Reads a sum, which is a whole expression, at `p`: a product, then any
/// number of `+` or `-` with a product each, grouped from the left.
pub open spec fn read_sum(s: Seq<u8>, p: int) -> Reading
    decreases room(s, p), 5int,
{
    match read_product(s, p) {
        Ok((first, n)) => match read_sum_from(s, p + n, first) {
            Ok((tree, m)) => Ok((tree, n + m)),
            Err(f) => Err(f),
        },
        Err(f) => Err(f),
    }
}

/// Reads the whole line `s`: blanks, one expression, blanks, and nothing
/// more.
pub open spec fn read_line(s: Seq<u8>) -> Result<Ast, Flaw> {
    let start = blanks(s, 0) as int;
    match read_sum(s, start) {
        Ok((tree, n)) => {
            let end = start + n + blanks(s, start + n);
            if end >= s.len() {
                Ok(tree)
            } else {
                Err(flaw(s, end, SyntaxErrorKind::TrailingInput))
            }
        },
        Err(f) => Err(f),
    }
}

} // verus!
