//! Percent-decoding of path and query text.
use vstd::prelude::*;

use crate::text::{chars_of, string_of};

use vstd::string::StringExecFns;

verus! {

/// Why a piece of text could not be percent-decoded.
#[derive(Debug, Clone, Copy, PartialEq, Eq, Structural)]
pub enum EscapeError {
    /// A character after `%` that is not a hexadecimal digit.
    InvalidEscapeCharacter(char),
    /// The text ended before the two digits after `%`.
    IncompleteEscapeSequence,
}

/// The text that `{:?}` gives the character `c`: `c` between single quotes,
/// escaped as std's `Debug` for `char` escapes it.
pub uninterp spec fn char_debug_text(c: char) -> Seq<char>;

/// Relies on std's `Debug` impl for `char`: its output depends on the character alone.
#[verifier::external_body]
fn debug_char(c: char) -> (r: String)
    ensures
        r@ == char_debug_text(c),
{
    format!("{:?}", c)
}

/// The message for a bad character after `%`, given that character as `{:?}` shows it.
pub fn invalid_character_message(shown: &str) -> (r: String)
    ensures
        r@ == "Expected a HEX character, found "@ + shown@
            + " while decoding a %-encoded character"@,
{
    let mut r = String::from_str("Expected a HEX character, found ");
    r.append(shown);
    r.append(" while decoding a %-encoded character");
    r
}

impl EscapeError {
    /// A sentence describing the error.
    pub fn message(&self) -> (r: String)
        ensures
            match *self {
                EscapeError::InvalidEscapeCharacter(c) => r@ == "Expected a HEX character, found "@
                    + char_debug_text(c) + " while decoding a %-encoded character"@,
                EscapeError::IncompleteEscapeSequence => r@
                    == "Expected a  HEX character, found EOF while decoding a %-encoded character"@,
            },
    {
        match self {
            EscapeError::InvalidEscapeCharacter(c) => {
                let shown = debug_char(*c);
                invalid_character_message(shown.as_str())
            },
            EscapeError::IncompleteEscapeSequence => String::from_str(
                "Expected a  HEX character, found EOF while decoding a %-encoded character",
            ),
        }
    }
}

/// The value of a hexadecimal digit (either case), if `c` is one.
pub open spec fn hex_value(c: char) -> Option<u8> {
    if '0' <= c && c <= '9' {
        Some((c as u8 - '0' as u8) as u8)
    } else if 'a' <= c && c <= 'f' {
        Some((c as u8 - 'a' as u8 + 10) as u8)
    } else if 'A' <= c && c <= 'F' {
        Some((c as u8 - 'A' as u8 + 10) as u8)
    } else {
        None
    }
}

/// The character that a decoded byte stands for (its code point is the byte).
pub open spec fn byte_char(hi: u8, lo: u8) -> char {
    ((hi * 16 + lo) as u8) as char
}

/// Prepends `c` to a successful decoding; an error passes through.
pub open spec fn cons_decoded(c: char, rest: Result<Seq<char>, EscapeError>) -> Result<
    Seq<char>,
    EscapeError,
> {
    match rest {
        Ok(r) => Ok(seq![c] + r),
        Err(e) => Err(e),
    }
}

/// Percent-decoding of `s`, left to right: each `%` takes the next two
/// characters as hex digits; every other character stands for itself.
pub open spec fn decoded(s: Seq<char>) -> Result<Seq<char>, EscapeError>
    decreases s.len(),
{
    if s.len() == 0 {
        Ok(Seq::empty())
    } else if s[0] == '%' {
        if s.len() < 2 {
            Err(EscapeError::IncompleteEscapeSequence)
        } else if hex_value(s[1]) is None {
            Err(EscapeError::InvalidEscapeCharacter(s[1]))
        } else if s.len() < 3 {
            Err(EscapeError::IncompleteEscapeSequence)
        } else if hex_value(s[2]) is None {
            Err(EscapeError::InvalidEscapeCharacter(s[2]))
        } else {
            cons_decoded(
                byte_char(hex_value(s[1])->0, hex_value(s[2])->0),
                decoded(s.subrange(3, s.len() as int)),
            )
        }
    } else {
        cons_decoded(s[0], decoded(s.subrange(1, s.len() as int)))
    }
}

/// The value of the hex digit `c`, or `None`.
fn hex_digit(c: char) -> (r: Option<u8>)
    ensures
        r == hex_value(c),
{
    if '0' <= c && c <= '9' {
        Some(c as u8 - '0' as u8)
    } else if 'a' <= c && c <= 'f' {
        Some(c as u8 - 'a' as u8 + 10)
    } else if 'A' <= c && c <= 'F' {
        Some(c as u8 - 'A' as u8 + 10)
    } else {
        None
    }
}

/// A decoded prefix `out` followed by what the rest decodes to; an error passes through.
pub open spec fn after(out: Seq<char>, rest: Result<Seq<char>, EscapeError>) -> Result<
    Seq<char>,
    EscapeError,
> {
    match rest {
        Ok(d) => Ok(out + d),
        Err(e) => Err(e),
    }
}

proof fn lemma_after_cons(out: Seq<char>, c: char, rest: Result<Seq<char>, EscapeError>)
    ensures
        after(out, cons_decoded(c, rest)) == after(out.push(c), rest),
{
    if let Ok(d) = rest {
        assert(out + (seq![c] + d) =~= out.push(c) + d);
    }
}

/// Percent-decodes `seg`: all of it, or an error for the first bad escape.
pub fn unescape_str(seg: &str) -> (r: Result<String, EscapeError>)
    ensures
        match decoded(seg@) {
            Ok(d) => r is Ok && r->Ok_0@ == d,
            Err(e) => r == Err::<String, EscapeError>(e),
        },
{
    let v = chars_of(seg);
    let n = v.len();
    let mut out: Vec<char> = Vec::new();
    let mut i: usize = 0;
    assert(v@.subrange(0, n as int) =~= v@);
    assert(after(out@, decoded(v@)) == decoded(seg@)) by {
        if let Ok(d) = decoded(v@) {
            assert(out@ + d =~= d);
        }
    }
    while i < n
        invariant
            n == v.len(),
            v@ == seg@,
            i <= n,
            decoded(seg@) == after(out@, decoded(v@.subrange(i as int, n as int))),
        decreases n - i,
    {
        let ghost rest = v@.subrange(i as int, n as int);
        let c = v[i];
        if c == '%' {
            if i + 1 >= n {
                return Err(EscapeError::IncompleteEscapeSequence);
            }
            let hi = match hex_digit(v[i + 1]) {
                Some(h) => h,
                None => {
                    return Err(EscapeError::InvalidEscapeCharacter(v[i + 1]));
                },
            };
            if i + 2 >= n {
                return Err(EscapeError::IncompleteEscapeSequence);
            }
            let lo = match hex_digit(v[i + 2]) {
                Some(l) => l,
                None => {
                    return Err(EscapeError::InvalidEscapeCharacter(v[i + 2]));
                },
            };
            let b: u8 = hi * 16 + lo;
            assert(rest.subrange(3, rest.len() as int) =~= v@.subrange(i + 3, n as int));
            proof {
                lemma_after_cons(out@, b as char, decoded(v@.subrange(i + 3, n as int)));
            }
            out.push(b as char);
            i = i + 3;
        } else {
            assert(rest.subrange(1, rest.len() as int) =~= v@.subrange(i + 1, n as int));
            proof {
                lemma_after_cons(out@, c, decoded(v@.subrange(i + 1, n as int)));
            }
            out.push(c);
            i = i + 1;
        }
    }
    assert(v@.subrange(i as int, n as int).len() == 0);
    assert(out@ + Seq::<char>::empty() =~= out@);
    Ok(string_of(&out, 0, out.len()))
}

/// Text without `%` decodes to itself.
pub proof fn lemma_decode_plain(s: Seq<char>)
    requires
        !s.contains('%'),
    ensures
        decoded(s) == Ok::<Seq<char>, EscapeError>(s),
    decreases s.len(),
{
    if s.len() > 0 {
        let t = s.subrange(1, s.len() as int);
        assert(!t.contains('%')) by {
            if t.contains('%') {
                let k = choose|k: int| 0 <= k < t.len() && t[k] == '%';
                assert(s[k + 1] == '%');
            }
        }
        assert(s[0] != '%') by {
            assert(s.contains(s[0]) || s.len() == 0);
        }
        lemma_decode_plain(t);
        assert(seq![s[0]] + t =~= s);
    } else {
        assert(s =~= Seq::empty());
    }
}

} // verus!
