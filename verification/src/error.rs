//! What a reader reports of a line that is no arithmetic expression.
use vstd::prelude::*;
use vstd::string::StringExecFns;
use crate::text::{is_digit, CLOSE, MINUS, NINE, OPEN, PLUS, SLASH, STAR, ZERO};

verus! {

/// The ways in which a line can fail to be an expression.
#[derive(Clone, Copy, Debug, PartialEq, Eq)]
pub enum SyntaxErrorKind {
    /// Where an operand has to begin (a digit, `-` or `(`) stands another
    /// byte, or the line ends.
    UnexpectedToken,
    /// Behind the expression that follows a `(` stands neither an operator
    /// nor `)`, or the line ends.
    MissingClosingParen,
    /// A run of digits writes a number above `i64::MAX`.
    MalformedInteger,
    /// Behind a complete expression the line goes on.
    TrailingInput,
}

/// Where a line stops being an expression, and how: the model of a
/// [`SyntaxError`].
pub struct Flaw {
    /// The position in the line, counted in bytes from 0.
    pub at: int,
    /// What went wrong there.
    pub kind: SyntaxErrorKind,
    /// The byte at that position, if the line has one.
    pub found: Option<u8>,
}

/// The flaw of kind `kind` at position `at` of the line `s`.
pub open spec fn flaw(s: Seq<u8>, at: int, kind: SyntaxErrorKind) -> Flaw {
    Flaw {
        at,
        kind,
        found: if 0 <= at < s.len() {
            Some(s[at])
        } else {
            None
        },
    }
}

/// A syntax error: the position in the line at which it was met, its kind,
/// and the byte that was found there (`None` at the end of the line).
#[derive(Clone, Copy, Debug, PartialEq, Eq)]
pub struct SyntaxError {
    pub position: usize,
    pub kind: SyntaxErrorKind,
    pub found: Option<u8>,
}

impl View for SyntaxError {
    type V = Flaw;

    open spec fn view(&self) -> Flaw {
        Flaw { at: self.position as int, kind: self.kind, found: self.found }
    }
}

impl SyntaxError {
    /// The error of kind `kind` at position `at` of the line `s`.
    pub fn at(s: &[u8], at: usize, kind: SyntaxErrorKind) -> (e: SyntaxError)
        requires
            at <= s.len(),
        ensures
            e@ == flaw(s@, at as int, kind),
    {
        let found = if at < s.len() {
            Some(s[at])
        } else {
            None
        };
        SyntaxError { position: at, kind, found }
    }
}

/// The word for the digit `d`.
pub open spec fn digit_word(d: nat) -> Seq<char> {
    if d == 0 {
        "0"@
    } else if d == 1 {
        "1"@
    } else if d == 2 {
        "2"@
    } else if d == 3 {
        "3"@
    } else if d == 4 {
        "4"@
    } else if d == 5 {
        "5"@
    } else if d == 6 {
        "6"@
    } else if d == 7 {
        "7"@
    } else if d == 8 {
        "8"@
    } else {
        "9"@
    }
}

/// The number `v` in words: its digits in base ten.
pub open spec fn number_words(v: nat) -> Seq<char>
    decreases v,
{
    if v < 10 {
        digit_word(v)
    } else {
        number_words(v / 10) + digit_word(v % 10)
    }
}

/// What a message says was expected, by the kind of the error.
pub open spec fn expectation(kind: SyntaxErrorKind) -> Seq<char> {
    match kind {
        SyntaxErrorKind::UnexpectedToken => "expected a number, '-' or '('"@,
        SyntaxErrorKind::MissingClosingParen => "expected an operator or ')'"@,
        SyntaxErrorKind::MalformedInteger => "expected a number of at most 9223372036854775807"@,
        SyntaxErrorKind::TrailingInput => "expected an operator or the end of the line"@,
    }
}

/// What a message says was found: the end of the line, a byte that the
/// grammar knows, in quotes, or any other byte by its number.
pub open spec fn finding(found: Option<u8>) -> Seq<char> {
    match found {
        None => "the end of the line"@,
        Some(b) => if b == PLUS {
            "'+'"@
        } else if b == MINUS {
            "'-'"@
        } else if b == STAR {
            "'*'"@
        } else if b == SLASH {
            "'/'"@
        } else if b == OPEN {
            "'('"@
        } else if b == CLOSE {
            "')'"@
        } else if is_digit(b) {
            "'"@ + digit_word((b - ZERO) as nat) + "'"@
        } else {
            "byte "@ + number_words(b as nat)
        },
    }
}

/// The line of text that tells of a flaw: where it is, what was expected
/// there, and what was found.
pub open spec fn message_of(f: Flaw) -> Seq<char> {
    "syntax error at byte "@ + number_words(f.at as nat) + ": "@ + expectation(f.kind)
        + ", found "@ + finding(f.found)
}

/// The word for the digit `d`.
fn digit_str(d: usize) -> (word: &'static str)
    requires
        d < 10,
    ensures
        word@ == digit_word(d as nat),
{
    if d == 0 {
        "0"
    } else if d == 1 {
        "1"
    } else if d == 2 {
        "2"
    } else if d == 3 {
        "3"
    } else if d == 4 {
        "4"
    } else if d == 5 {
        "5"
    } else if d == 6 {
        "6"
    } else if d == 7 {
        "7"
    } else if d == 8 {
        "8"
    } else {
        "9"
    }
}

/// Appends the number `v` in words to `out`.
fn append_number(out: &mut String, v: usize)
    ensures
        final(out)@ == old(out)@ + number_words(v as nat),
    decreases v,
{
    if v >= 10 {
        append_number(out, v / 10);
    }
    out.append(digit_str(v % 10));
    assert(final(out)@ =~= old(out)@ + number_words(v as nat));
}

impl SyntaxErrorKind {
    /// What should have stood where an error of this kind was met.
    pub fn expected(&self) -> (words: &'static str)
        ensures
            words@ == expectation(*self),
    {
        match self {
            SyntaxErrorKind::UnexpectedToken => "expected a number, '-' or '('",
            SyntaxErrorKind::MissingClosingParen => "expected an operator or ')'",
            SyntaxErrorKind::MalformedInteger => "expected a number of at most 9223372036854775807",
            SyntaxErrorKind::TrailingInput => "expected an operator or the end of the line",
        }
    }
}

/// Appends to `out` what was found.
fn append_finding(out: &mut String, found: Option<u8>)
    ensures
        final(out)@ == old(out)@ + finding(found),
{
    match found {
        None => {
            out.append("the end of the line");
        },
        Some(b) => {
            if b == PLUS {
                out.append("'+'");
            } else if b == MINUS {
                out.append("'-'");
            } else if b == STAR {
                out.append("'*'");
            } else if b == SLASH {
                out.append("'/'");
            } else if b == OPEN {
                out.append("'('");
            } else if b == CLOSE {
                out.append("')'");
            } else if b >= ZERO && b <= NINE {
                out.append("'");
                out.append(digit_str((b - ZERO) as usize));
                out.append("'");
            } else {
                out.append("byte ");
                append_number(out, b as usize);
            }
        },
    }
    assert(final(out)@ =~= old(out)@ + finding(found));
}

impl SyntaxError {
    /// The error as one line of text for a reader.
    pub fn message(&self) -> (line: String)
        ensures
            line@ == message_of(self@),
    {
        let mut line = String::from_str("syntax error at byte ");
        append_number(&mut line, self.position);
        line.append(": ");
        line.append(self.kind.expected());
        line.append(", found ");
        append_finding(&mut line, self.found);
        assert(line@ =~= message_of(self@));
        line
    }
}

} // verus!
