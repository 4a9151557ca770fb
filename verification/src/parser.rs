//! The parser: it reads a line once from left to right, without a token
//! list in between, and builds the tree as it goes.
use vstd::prelude::*;
use vstd::string::StringSliceAdditionalSpecFns;
use crate::ast::Ast;
use crate::agreement::{
    lemma_atom_sound, lemma_factor_sound, lemma_line_complete, lemma_line_sound,
    lemma_product_sound, lemma_sum_sound,
};
use crate::error::{Flaw, SyntaxError, SyntaxErrorKind};
use crate::flaws::{holds, law_flaw_holds};
use crate::grammar::{is_atom, is_factor, is_line, is_product, is_sum};
use crate::reading::{
    is_product_sign, is_sum_sign, join, read_atom, read_factor, read_line, read_product,
    read_product_from, read_sum, read_sum_from, resumed, Reading,
};
use crate::text::{scan_number, skip_blanks, CLOSE, MINUS, NINE, OPEN, PLUS, SLASH, STAR, ZERO};

verus! {

/// What a parsing function gives: the tree and the position behind it, or
/// the error.
pub type Parsed = Result<(Ast, usize), SyntaxError>;

/// Whether `r`, the outcome of parsing at position `p` of `s`, is the
/// reading `expected`.
pub open spec fn agrees(r: Parsed, s: Seq<u8>, p: int, expected: Reading) -> bool {
    match (r, expected) {
        (Ok((tree, end)), Ok((t, n))) => tree == t && end == p + n && end <= s.len(),
        (Err(e), Err(f)) => e@ == f && f.at <= s.len(),
        _ => false,
    }
}

/// Builds the node of the binary operator `sign`. Only the four operator
/// signs may be handed in: the precondition is checked at every call, so no
/// other byte ever gets here.
pub fn join_nodes(sign: u8, left: Ast, right: Ast) -> (tree: Ast)
    requires
        is_sum_sign(sign) || is_product_sign(sign),
    ensures
        tree == join(sign, left, right),
{
    if sign == PLUS {
        Ast::Add(Box::new(left), Box::new(right))
    } else if sign == MINUS {
        Ast::Sub(Box::new(left), Box::new(right))
    } else if sign == STAR {
        Ast::Mul(Box::new(left), Box::new(right))
    } else {
        Ast::Div(Box::new(left), Box::new(right))
    }
}

/// Parses an atom that begins at `p`.
pub fn parse_atom(s: &[u8], p: usize) -> (r: Parsed)
    requires
        p <= s.len(),
    ensures
        agrees(r, s@, p as int, read_atom(s@, p as int)),
        r matches Ok((tree, end)) ==> is_atom(s@, p as int, end as int, tree),
    decreases s.len() - p, 0int,
{
    proof {
        lemma_atom_sound(s@, p as int);
    }
    if p < s.len() && s[p] >= ZERO && s[p] <= NINE {
        match scan_number(s, p) {
            Some((v, end)) => Ok((Ast::Num(v), end)),
            None => Err(SyntaxError::at(s, p, SyntaxErrorKind::MalformedInteger)),
        }
    } else if p < s.len() && s[p] == OPEN {
        let inner = skip_blanks(s, p + 1);
        match parse_sum(s, inner) {
            Ok((tree, end)) => {
                let close = skip_blanks(s, end);
                if close < s.len() && s[close] == CLOSE {
                    Ok((tree, close + 1))
                } else {
                    Err(SyntaxError::at(s, close, SyntaxErrorKind::MissingClosingParen))
                }
            },
            Err(e) => Err(e),
        }
    } else {
        Err(SyntaxError::at(s, p, SyntaxErrorKind::UnexpectedToken))
    }
}

/// Parses a factor that begins at `p`.
pub fn parse_factor(s: &[u8], p: usize) -> (r: Parsed)
    requires
        p <= s.len(),
    ensures
        agrees(r, s@, p as int, read_factor(s@, p as int)),
        r matches Ok((tree, end)) ==> is_factor(s@, p as int, end as int, tree),
    decreases s.len() - p, 1int,
{
    proof {
        lemma_factor_sound(s@, p as int);
    }
    if p < s.len() && s[p] == MINUS {
        let operand = skip_blanks(s, p + 1);
        match parse_factor(s, operand) {
            Ok((tree, end)) => Ok((Ast::Neg(Box::new(tree)), end)),
            Err(e) => Err(e),
        }
    } else {
        parse_atom(s, p)
    }
}

/// Parses a product that begins at `p`.
pub fn parse_product(s: &[u8], p: usize) -> (r: Parsed)
    requires
        p <= s.len(),
    ensures
        agrees(r, s@, p as int, read_product(s@, p as int)),
        r matches Ok((tree, end)) ==> is_product(s@, p as int, end as int, tree),
    decreases s.len() - p, 3int,
{
    let (first, first_end) = match parse_factor(s, p) {
        Ok(read) => read,
        Err(e) => { return Err(e); },
    };
    let mut acc: Ast = first;
    let mut end: usize = first_end;
    loop
        invariant
            p <= end <= s.len(),
            read_product(s@, p as int) == resumed(
                p as int,
                end as int,
                read_product_from(s@, end as int, acc),
            ),
        decreases s.len() - end,
    {
        let sign = skip_blanks(s, end);
        if !(sign < s.len() && (s[sign] == STAR || s[sign] == SLASH)) {
            proof {
                lemma_product_sound(s@, p as int);
            }
            return Ok((acc, end));
        }
        let operand = skip_blanks(s, sign + 1);
        match parse_factor(s, operand) {
            Ok((right, right_end)) => {
                acc = join_nodes(s[sign], acc, right);
                end = right_end;
            },
            Err(e) => { return Err(e); },
        }
    }
}

/// Parses a sum, which is a whole expression, that begins at `p`.
pub fn parse_sum(s: &[u8], p: usize) -> (r: Parsed)
    requires
        p <= s.len(),
    ensures
        agrees(r, s@, p as int, read_sum(s@, p as int)),
        r matches Ok((tree, end)) ==> is_sum(s@, p as int, end as int, tree),
    decreases s.len() - p, 5int,
{
    let (first, first_end) = match parse_product(s, p) {
        Ok(read) => read,
        Err(e) => { return Err(e); },
    };
    let mut acc: Ast = first;
    let mut end: usize = first_end;
    loop
        invariant
            p <= end <= s.len(),
            read_sum(s@, p as int) == resumed(
                p as int,
                end as int,
                read_sum_from(s@, end as int, acc),
            ),
        decreases s.len() - end,
    {
        let sign = skip_blanks(s, end);
        if !(sign < s.len() && (s[sign] == PLUS || s[sign] == MINUS)) {
            proof {
                lemma_sum_sound(s@, p as int);
            }
            return Ok((acc, end));
        }
        let operand = skip_blanks(s, sign + 1);
        match parse_product(s, operand) {
            Ok((right, right_end)) => {
                acc = join_nodes(s[sign], acc, right);
                end = right_end;
            },
            Err(e) => { return Err(e); },
        }
    }
}

/// Parses the line `s`, given as bytes: the tree that the line writes, or
/// the error at the first position at which a reading from left to right
/// cannot go on.
///
/// The line is accepted exactly when the grammar gives it a tree, and that
/// tree is returned; no line has two.
pub fn parse_bytes(s: &[u8]) -> (r: Result<Ast, SyntaxError>)
    ensures
        r matches Ok(tree) ==> is_line(s@, tree) && read_line(s@) == Ok::<Ast, Flaw>(tree),
        r matches Err(e) ==> read_line(s@) == Err::<Ast, Flaw>(e@) && holds(s@, e@),
        r is Err ==> forall|t: Ast| !is_line(s@, t),
{
    let r = read_bytes(s);
    proof {
        law_flaw_holds(s@);
        if let Ok(tree) = read_line(s@) {
            lemma_line_sound(s@, tree);
        } else {
            assert forall|t: Ast| !is_line(s@, t) by {
                if is_line(s@, t) {
                    lemma_line_complete(s@, t);
                }
            }
        }
    }
    r
}

/// Parses the line `input`: the tree that it writes, or the syntax errors
/// that were met. The reading stops at the first error, so the list holds
/// exactly that one.
///
/// The line is accepted exactly when the grammar gives it a tree, and that
/// tree is returned; no line has two.
pub fn parse(input: &str) -> (r: Result<Ast, Vec<SyntaxError>>)
    ensures
        r matches Ok(tree) ==> is_line(input.spec_bytes(), tree) && read_line(input.spec_bytes())
            == Ok::<Ast, Flaw>(tree),
        r matches Err(errors) ==> errors@.len() == 1 && read_line(input.spec_bytes()) == Err::<
            Ast,
            Flaw,
        >(errors@[0]@) && holds(input.spec_bytes(), errors@[0]@),
        r is Err ==> forall|t: Ast| !is_line(input.spec_bytes(), t),
{
    match parse_bytes(input.as_bytes()) {
        Ok(tree) => Ok(tree),
        Err(e) => {
            let mut errors: Vec<SyntaxError> = Vec::new();
            errors.push(e);
            Err(errors)
        },
    }
}

/// Reads the line `s` from left to right.
fn read_bytes(s: &[u8]) -> (r: Result<Ast, SyntaxError>)
    ensures
        match (r, read_line(s@)) {
            (Ok(tree), Ok(t)) => tree == t,
            (Err(e), Err(f)) => e@ == f && e.position <= s.len(),
            _ => false,
        },
{
    let start = skip_blanks(s, 0);
    match parse_sum(s, start) {
        Ok((tree, end)) => {
            let rest = skip_blanks(s, end);
            if rest >= s.len() {
                Ok(tree)
            } else {
                Err(SyntaxError::at(s, rest, SyntaxErrorKind::TrailingInput))
            }
        },
        Err(e) => Err(e),
    }
}

} // verus!
