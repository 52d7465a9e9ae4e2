//! Byte classes: the fixed tables that decide where a candidate may begin,
//! which bytes carry it on, and how brackets and quotes nest inside it.

use vstd::prelude::*;

verus! {

pub const DIGIT_0: u8 = 0x30;

pub const DIGIT_9: u8 = 0x39;

pub const UPPER_A: u8 = 0x41;

pub const UPPER_Z: u8 = 0x5a;

pub const LOWER_A: u8 = 0x61;

pub const LOWER_Z: u8 = 0x7a;

/// `!`
pub const BANG: u8 = 0x21;

/// `"`
pub const DOUBLE_QUOTE: u8 = 0x22;

/// `#`
pub const HASH: u8 = 0x23;

/// `%`
pub const PERCENT: u8 = 0x25;

/// `'`
pub const SINGLE_QUOTE: u8 = 0x27;

/// `-`
pub const HYPHEN: u8 = 0x2d;

/// `.`
pub const DOT: u8 = 0x2e;

/// `/`
pub const SLASH: u8 = 0x2f;

/// `:`
pub const COLON: u8 = 0x3a;

/// `@`
pub const AT: u8 = 0x40;

/// `[`
pub const OPEN_BRACKET: u8 = 0x5b;

/// `]`
pub const CLOSE_BRACKET: u8 = 0x5d;

/// `_`
pub const UNDERSCORE: u8 = 0x5f;

/// `` ` ``
pub const BACKTICK: u8 = 0x60;

/// The bytes at which a candidate may begin: ASCII letters and digits, and
/// `-`, `_`, `.`, `:`, `/`, `!`, `@`, `%`, `#`.
pub open spec fn is_start_byte(b: u8) -> bool {
    ||| LOWER_A <= b <= LOWER_Z
    ||| UPPER_A <= b <= UPPER_Z
    ||| DIGIT_0 <= b <= DIGIT_9
    ||| b == HYPHEN
    ||| b == UNDERSCORE
    ||| b == DOT
    ||| b == COLON
    ||| b == SLASH
    ||| b == BANG
    ||| b == AT
    ||| b == PERCENT
    ||| b == HASH
}

/// The bytes that open a quoted span inside brackets: `'`, `"` and `` ` ``.
pub open spec fn is_quote_byte(b: u8) -> bool {
    b == SINGLE_QUOTE || b == DOUBLE_QUOTE || b == BACKTICK
}

/// The bytes that carry an open candidate on outside brackets: the bytes
/// that may begin one, the opening bracket, and the bytes in `extra`.
pub open spec fn is_continue_byte(b: u8, extra: Seq<u8>) -> bool {
    is_start_byte(b) || b == OPEN_BRACKET || extra.contains(b)
}

/// What a byte does to an open candidate.
#[derive(Clone, Copy, PartialEq, Eq, Structural, Debug)]
pub enum Effect {
    /// The byte belongs to the candidate and leaves the nesting as it is.
    Continue,
    /// The byte belongs to the candidate and opens a bracket.
    OpenBracket,
    /// The byte belongs to the candidate and closes the innermost bracket.
    CloseBracket,
    /// The byte belongs to the candidate and opens a quoted span.
    OpenQuote,
    /// The byte belongs to the candidate and ends the quoted span.
    CloseQuote,
    /// The candidate ends before the byte.
    Close,
}

/// The effect of byte `b` on a candidate that is open inside `depth`
/// unmatched brackets and, where `quote` is set, inside a span opened by that
/// quote byte.
///
/// Outside brackets a byte either carries the candidate on or closes it.
/// Inside brackets every byte belongs to the candidate: a quote byte opens a
/// quoted span, which lasts until the same quote byte comes again and in which
/// brackets are inert.
pub open spec fn effect_of(b: u8, depth: nat, quote: Option<u8>, extra: Seq<u8>) -> Effect {
    if depth == 0 {
        if b == OPEN_BRACKET {
            Effect::OpenBracket
        } else if is_continue_byte(b, extra) {
            Effect::Continue
        } else {
            Effect::Close
        }
    } else if quote is Some {
        if b == quote->0 {
            Effect::CloseQuote
        } else {
            Effect::Continue
        }
    } else if b == OPEN_BRACKET {
        Effect::OpenBracket
    } else if b == CLOSE_BRACKET {
        Effect::CloseBracket
    } else if is_quote_byte(b) {
        Effect::OpenQuote
    } else {
        Effect::Continue
    }
}

/// Whether a candidate may begin at `b`.
pub fn starts_candidate(b: u8) -> (r: bool)
    ensures
        r == is_start_byte(b),
{
    (LOWER_A <= b && b <= LOWER_Z) || (UPPER_A <= b && b <= UPPER_Z) || (DIGIT_0 <= b && b
        <= DIGIT_9) || b == HYPHEN || b == UNDERSCORE || b == DOT || b == COLON || b == SLASH || b
        == BANG || b == AT || b == PERCENT || b == HASH
}

/// Whether `b` opens a quoted span inside brackets.
pub fn opens_quote(b: u8) -> (r: bool)
    ensures
        r == is_quote_byte(b),
{
    b == SINGLE_QUOTE || b == DOUBLE_QUOTE || b == BACKTICK
}

/// Whether `b` is one of `extra`.
pub fn is_listed(b: u8, extra: &[u8]) -> (r: bool)
    ensures
        r == extra@.contains(b),
{
    let mut i: usize = 0;
    while i < extra.len()
        invariant
            i <= extra.len(),
            forall|k: int| 0 <= k < i ==> extra@[k] != b,
        decreases extra.len() - i,
    {
        if extra[i] == b {
            return true;
        }
        i += 1;
    }
    false
}

/// Whether `b` carries an open candidate on outside brackets.
pub fn continues_candidate(b: u8, extra: &[u8]) -> (r: bool)
    ensures
        r == is_continue_byte(b, extra@),
{
    starts_candidate(b) || b == OPEN_BRACKET || is_listed(b, extra)
}

/// Classifies `b` for a candidate that is open inside `depth` unmatched
/// brackets and, where `quote` is set, inside a quoted span.
pub fn classify(b: u8, depth: usize, quote: Option<u8>, extra: &[u8]) -> (e: Effect)
    ensures
        e == effect_of(b, depth as nat, quote, extra@),
{
    if depth == 0 {
        if b == OPEN_BRACKET {
            Effect::OpenBracket
        } else if continues_candidate(b, extra) {
            Effect::Continue
        } else {
            Effect::Close
        }
    } else {
        match quote {
            Some(q) => {
                if b == q {
                    Effect::CloseQuote
                } else {
                    Effect::Continue
                }
            },
            None => {
                if b == OPEN_BRACKET {
                    Effect::OpenBracket
                } else if b == CLOSE_BRACKET {
                    Effect::CloseBracket
                } else if opens_quote(b) {
                    Effect::OpenQuote
                } else {
                    Effect::Continue
                }
            },
        }
    }
}

} // verus!
