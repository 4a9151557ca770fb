//! The bytes of a line: blanks, digits and the value of a run of digits.
use vstd::prelude::*;

verus! {

/// The blank that may surround a token.
pub const BLANK: u8 = 0x20;

/// `(`
pub const OPEN: u8 = 0x28;

/// `)`
pub const CLOSE: u8 = 0x29;

/// `*`
pub const STAR: u8 = 0x2a;

/// `+`
pub const PLUS: u8 = 0x2b;

/// `-`
pub const MINUS: u8 = 0x2d;

/// `/`
pub const SLASH: u8 = 0x2f;

/// The digit `0`.
pub const ZERO: u8 = 0x30;

/// The digit `9`.
pub const NINE: u8 = 0x39;

/// Whether `b` is a decimal digit.
pub open spec fn is_digit(b: u8) -> bool {
    ZERO <= b <= NINE
}

/// Whether `b` is the blank that may surround a token.
pub open spec fn is_blank(b: u8) -> bool {
    b == BLANK
}

/// How far position `p` is from the end of `s`; 0 behind the end.
pub open spec fn room(s: Seq<u8>, p: int) -> nat {
    if p <= s.len() {
        (s.len() - p) as nat
    } else {
        0
    }
}

/// The length of the run of blanks that starts at position `p`.
pub open spec fn blanks(s: Seq<u8>, p: int) -> nat
    decreases room(s, p),
{
    if 0 <= p < s.len() && is_blank(s[p]) {
        1 + blanks(s, p + 1)
    } else {
        0
    }
}

/// The length of the run of digits that starts at position `p`.
pub open spec fn digits(s: Seq<u8>, p: int) -> nat
    decreases room(s, p),
{
    if 0 <= p < s.len() && is_digit(s[p]) {
        1 + digits(s, p + 1)
    } else {
        0
    }
}

/// Whether every byte of `s` from `from` up to `to` is a blank.
pub open spec fn all_blank(s: Seq<u8>, from: int, to: int) -> bool {
    forall|k: int| from <= k < to ==> is_blank(#[trigger] s[k])
}

/// Whether every byte of `s` from `from` up to `to` is a digit.
pub open spec fn all_digits(s: Seq<u8>, from: int, to: int) -> bool {
    forall|k: int| from <= k < to ==> is_digit(#[trigger] s[k])
}

/// The number that the digits of `s` from `from` up to `to` write in base ten.
pub open spec fn decimal(s: Seq<u8>, from: int, to: int) -> nat
    decreases to - from,
{
    if to <= from {
        0
    } else {
        decimal(s, from, to - 1) * 10 + (s[to - 1] - ZERO) as nat
    }
}

/// The run of blanks at `p` ends inside the text, holds blanks only, and
/// stops at a byte that is no blank.
pub proof fn lemma_blanks(s: Seq<u8>, p: int)
    requires
        0 <= p <= s.len(),
    ensures
        p + blanks(s, p) <= s.len(),
        all_blank(s, p, p + blanks(s, p)),
        p + blanks(s, p) < s.len() ==> !is_blank(s[p + blanks(s, p)]),
    decreases room(s, p),
{
    if p < s.len() && is_blank(s[p]) {
        lemma_blanks(s, p + 1);
    }
}

/// A stretch of blanks that stops at a byte that is no blank, or at the end
/// of the text, is the run of blanks at its start.
pub proof fn lemma_blanks_unique(s: Seq<u8>, p: int, q: int)
    requires
        0 <= p <= q <= s.len(),
        all_blank(s, p, q),
        q < s.len() ==> !is_blank(s[q]),
    ensures
        p + blanks(s, p) == q,
    decreases q - p,
{
    if p < q {
        assert(is_blank(s[p]));
        lemma_blanks_unique(s, p + 1, q);
    }
}

/// The run of digits at `p` ends inside the text, holds digits only, and
/// stops at a byte that is no digit.
pub proof fn lemma_digits(s: Seq<u8>, p: int)
    requires
        0 <= p <= s.len(),
    ensures
        p + digits(s, p) <= s.len(),
        all_digits(s, p, p + digits(s, p)),
        p + digits(s, p) < s.len() ==> !is_digit(s[p + digits(s, p)]),
    decreases room(s, p),
{
    if p < s.len() && is_digit(s[p]) {
        lemma_digits(s, p + 1);
    }
}

/// A stretch of digits that stops at a byte that is no digit, or at the end
/// of the text, is the run of digits at its start.
pub proof fn lemma_digits_unique(s: Seq<u8>, p: int, q: int)
    requires
        0 <= p <= q <= s.len(),
        all_digits(s, p, q),
        q < s.len() ==> !is_digit(s[q]),
    ensures
        p + digits(s, p) == q,
    decreases q - p,
{
    if p < q {
        assert(is_digit(s[p]));
        lemma_digits_unique(s, p + 1, q);
    }
}

/// More digits never write a smaller number.
pub proof fn lemma_decimal_grows(s: Seq<u8>, from: int, mid: int, to: int)
    requires
        from <= mid <= to,
        all_digits(s, from, to),
    ensures
        decimal(s, from, mid) <= decimal(s, from, to),
    decreases to - mid,
{
    if mid < to {
        lemma_decimal_grows(s, from, mid, to - 1);
        assert(is_digit(s[to - 1]));
    }
}

/// Moves `p` past the blanks that start there.
pub fn skip_blanks(s: &[u8], p: usize) -> (q: usize)
    requires
        p <= s.len(),
    ensures
        q == p + blanks(s@, p as int),
        q <= s.len(),
{
    let mut q: usize = p;
    while q < s.len() && s[q] == BLANK
        invariant
            p <= q <= s.len(),
            q + blanks(s@, q as int) == p + blanks(s@, p as int),
        decreases s.len() - q,
    {
        q = q + 1;
    }
    q
}

/// Reads the run of digits that starts at `p`. Gives the number they write
/// and the position behind the run, or nothing where the number is above
/// `i64::MAX`.
pub fn scan_number(s: &[u8], p: usize) -> (r: Option<(i64, usize)>)
    requires
        p < s.len(),
        is_digit(s[p as int]),
    ensures
        match r {
            Some((v, e)) => e == p + digits(s@, p as int) && e <= s.len() && v == decimal(
                s@,
                p as int,
                e as int,
            ),
            None => decimal(s@, p as int, p + digits(s@, p as int)) > i64::MAX,
        },
{
    let mut q: usize = p;
    let mut v: i64 = 0;
    proof {
        lemma_digits(s@, p as int);
    }
    while q < s.len() && s[q] >= ZERO && s[q] <= NINE
        invariant
            p <= q <= s.len(),
            q + digits(s@, q as int) == p + digits(s@, p as int),
            all_digits(s@, p as int, p + digits(s@, p as int)),
            v == decimal(s@, p as int, q as int),
            0 <= v,
        decreases s.len() - q,
    {
        let d: i64 = (s[q] - ZERO) as i64;
        if v > (i64::MAX - d) / 10 {
            proof {
                lemma_decimal_grows(s@, p as int, q + 1, p + digits(s@, p as int));
            }
            return None;
        }
        v = v * 10 + d;
        q = q + 1;
    }
    Some((v, q))
}

} // verus!
