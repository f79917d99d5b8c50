//! Human-readable descriptions of lexical errors.

use vstd::prelude::*;

use crate::token::{LexError, LexErrorKind};

verus! {

/// The decimal digit `d` as a character.
pub open spec fn digit_char(d: nat) -> char {
    (d + 48) as char
}

/// The decimal representation of `n`, without leading zeros.
pub open spec fn decimal(n: nat) -> Seq<char>
    decreases n,
{
    if n < 10 {
        seq![digit_char(n)]
    } else {
        decimal(n / 10) + seq![digit_char(n % 10)]
    }
}

/// The text that describes `e`: what went wrong, then its span as `start..end`.
pub open spec fn error_message(e: LexError) -> Seq<char> {
    let at = decimal(e.span.start as nat) + ".."@ + decimal(e.span.end as nat);
    match e.kind {
        LexErrorKind::UnexpectedChar(c) => "unexpected character `"@ + seq![c] + "` at "@ + at,
        LexErrorKind::UnterminatedString => "unterminated string literal at "@ + at,
        LexErrorKind::InvalidNumber => "invalid numeric literal at "@ + at,
    }
}

/// Appends `c` to `s` (std's `String::push`).
#[verifier::external_body]
fn push_char(s: &mut String, c: char)
    ensures
        final(s)@ == old(s)@.push(c),
{
    s.push(c);
}

/// The one-character text of the decimal digit `d`.
fn digit_str(d: u32) -> (r: &'static str)
    requires
        d < 10,
    ensures
        r@ == seq![digit_char(d as nat)],
{
    if d == 0 {
        proof {
            reveal_strlit("0");
            assert("0"@ =~= seq!['0']);
        }
        "0"
    } else if d == 1 {
        proof {
            reveal_strlit("1");
            assert("1"@ =~= seq!['1']);
        }
        "1"
    } else if d == 2 {
        proof {
            reveal_strlit("2");
            assert("2"@ =~= seq!['2']);
        }
        "2"
    } else if d == 3 {
        proof {
            reveal_strlit("3");
            assert("3"@ =~= seq!['3']);
        }
        "3"
    } else if d == 4 {
        proof {
            reveal_strlit("4");
            assert("4"@ =~= seq!['4']);
        }
        "4"
    } else if d == 5 {
        proof {
            reveal_strlit("5");
            assert("5"@ =~= seq!['5']);
        }
        "5"
    } else if d == 6 {
        proof {
            reveal_strlit("6");
            assert("6"@ =~= seq!['6']);
        }
        "6"
    } else if d == 7 {
        proof {
            reveal_strlit("7");
            assert("7"@ =~= seq!['7']);
        }
        "7"
    } else if d == 8 {
        proof {
            reveal_strlit("8");
            assert("8"@ =~= seq!['8']);
        }
        "8"
    } else {
        proof {
            reveal_strlit("9");
            assert("9"@ =~= seq!['9']);
        }
        "9"
    }
}

/// Appends the decimal representation of `n` to `s`.
fn push_decimal(s: &mut String, n: u32)
    ensures
        final(s)@ == old(s)@ + decimal(n as nat),
    decreases n,
{
    if n >= 10 {
        push_decimal(s, n / 10);
    }
    s.append(digit_str(n % 10));
    proof {
        assert(s@ =~= old(s)@ + decimal(n as nat));
    }
}

impl LexError {
    /// Describes the error: what went wrong, then its span as `start..end`,
    /// e.g. "unexpected character `@` at 0..1".
    pub fn message(&self) -> (r: String)
        ensures
            r@ == error_message(*self),
    {
        let mut s = String::new();
        match self.kind {
            LexErrorKind::UnexpectedChar(c) => {
                s.append("unexpected character `");
                push_char(&mut s, c);
                s.append("` at ");
            },
            LexErrorKind::UnterminatedString => {
                s.append("unterminated string literal at ");
            },
            LexErrorKind::InvalidNumber => {
                s.append("invalid numeric literal at ");
            },
        }
        push_decimal(&mut s, self.span.start);
        s.append("..");
        push_decimal(&mut s, self.span.end);
        proof {
            let at = decimal(self.span.start as nat) + ".."@ + decimal(self.span.end as nat);
            match self.kind {
                LexErrorKind::UnexpectedChar(c) => {
                    assert(s@ =~= "unexpected character `"@ + seq![c] + "` at "@ + at);
                },
                LexErrorKind::UnterminatedString => {
                    assert(s@ =~= "unterminated string literal at "@ + at);
                },
                LexErrorKind::InvalidNumber => {
                    assert(s@ =~= "invalid numeric literal at "@ + at);
                },
            }
        }
        s
    }
}

} // verus!
