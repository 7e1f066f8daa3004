//! Reading a move typed by a player.
use vstd::prelude::*;

verus! {

/// Why a typed move was refused.
#[derive(Debug, Clone, Copy, PartialEq, Eq, Structural)]
pub enum PlayError {
    /// The text is not an unsigned 8-bit number.
    NotANumber,
    /// The number does not name a place on the board.
    OutOfBoard,
}

pub open spec fn is_digit(c: char) -> bool {
    '0' as int <= c as int && c as int <= '9' as int
}

pub open spec fn digit_value(c: char) -> int {
    c as int - '0' as int
}

/// The value of a string of decimal digits, most significant first.
pub open spec fn digits_value(d: Seq<char>) -> int
    decreases d.len(),
{
    if d.len() == 0 {
        0
    } else {
        digits_value(d.drop_last()) * 10 + digit_value(d.last())
    }
}

pub open spec fn all_digits(d: Seq<char>) -> bool {
    forall|i: int| 0 <= i < d.len() ==> is_digit(#[trigger] d[i])
}

/// The digits of an unsigned number: one leading `+` is allowed.
pub open spec fn unsigned_digits(s: Seq<char>) -> Seq<char> {
    if s.len() > 0 && s[0] == '+' {
        s.drop_first()
    } else {
        s
    }
}

/// What the text `s` denotes as a `u8` in decimal notation: at least one
/// digit, an optional leading `+`, and a value of at most 255.
pub open spec fn parsed_u8(s: Seq<char>) -> Option<u8> {
    let d = unsigned_digits(s);
    if d.len() > 0 && all_digits(d) && digits_value(d) <= 255 {
        Some(digits_value(d) as u8)
    } else {
        None
    }
}

proof fn lemma_digits_value_nonneg(d: Seq<char>)
    requires
        all_digits(d),
    ensures
        digits_value(d) >= 0,
    decreases d.len(),
{
    if d.len() > 0 {
        assert(all_digits(d.drop_last()));
        lemma_digits_value_nonneg(d.drop_last());
    }
}

/// Reads a `u8` written in decimal, as `u8::from_str` does.
pub fn parse_u8(s: &str) -> (r: Option<u8>)
    ensures
        r == parsed_u8(s@),
{
    let n = s.unicode_len();
    let mut start: usize = 0;
    if n > 0 && s.get_char(0) == '+' {
        start = 1;
    }
    let ghost d = unsigned_digits(s@);
    if start >= n {
        return None;
    }
    // the value of the digits read so far, capped at 256
    let mut acc: u32 = 0;
    let mut i: usize = start;
    while i < n
        invariant
            start <= i <= n,
            n == s@.len(),
            start < n,
            d == s@.subrange(start as int, n as int),
            d == unsigned_digits(s@),
            all_digits(s@.subrange(start as int, i as int)),
            acc as int == if digits_value(s@.subrange(start as int, i as int)) < 256 {
                digits_value(s@.subrange(start as int, i as int))
            } else {
                256
            },
        decreases n - i,
    {
        let c = s.get_char(i);
        let cv = c as u32;
        if cv < '0' as u32 || cv > '9' as u32 {
            assert(!is_digit(d[i - start]));
            return None;
        }
        let ghost prefix = s@.subrange(start as int, i as int);
        let ghost next = s@.subrange(start as int, i + 1);
        assert(next.drop_last() == prefix);
        assert(all_digits(next));
        proof {
            lemma_digits_value_nonneg(prefix);
        }
        let dv = cv - '0' as u32;
        if acc >= 256 {
            assert(digits_value(next) >= 256) by (nonlinear_arith)
                requires
                    digits_value(next) == digits_value(prefix) * 10 + dv,
                    digits_value(prefix) >= 256,
                    dv >= 0,
            ;
            acc = 256;
        } else {
            let v = acc * 10 + dv;
            acc = if v < 256 { v } else { 256 };
        }
        i = i + 1;
    }
    assert(s@.subrange(start as int, n as int) == d);
    if acc <= 255 {
        Some(acc as u8)
    } else {
        None
    }
}

/// Reads the place a player typed: the number must be below `bound`.
pub fn parse_play(input: &str, bound: u8) -> (r: Result<u8, PlayError>)
    ensures
        match parsed_u8(input@) {
            None => r == Err::<u8, PlayError>(PlayError::NotANumber),
            Some(v) => if v < bound {
                r == Ok::<u8, PlayError>(v)
            } else {
                r == Err::<u8, PlayError>(PlayError::OutOfBoard)
            },
        },
{
    match parse_u8(input) {
        None => Err(PlayError::NotANumber),
        Some(v) => if v < bound {
            Ok(v)
        } else {
            Err(PlayError::OutOfBoard)
        },
    }
}

} // verus!
