//! The RESP3 framing rules, stated as spec functions over bytes.
use vstd::prelude::*;

use crate::error::Error;

verus! {

/// Carriage return.
pub const CR: u8 = 13;
/// Line feed.
pub const LF: u8 = 10;
pub const DIGIT_ZERO: u8 = 48;
pub const DIGIT_NINE: u8 = 57;
pub const MINUS: u8 = 45;

// Frame markers.
pub const SIMPLE_STRING: u8 = 43;
pub const SIMPLE_ERROR: u8 = 45;
pub const BLOB_STRING: u8 = 36;
pub const BLOB_ERROR: u8 = 33;
pub const VERBATIM_STRING: u8 = 61;
pub const NUMBER: u8 = 58;
pub const DOUBLE: u8 = 44;
pub const BOOLEAN: u8 = 35;
pub const NULL: u8 = 95;
pub const ARRAY: u8 = 42;
pub const SET: u8 = 126;
pub const MAP: u8 = 37;
pub const ATTRIBUTE: u8 = 124;
pub const PUSH: u8 = 62;
pub const STREAM_END: u8 = 46;

// Bytes of the boolean and double bodies.
pub const TRUE_BYTE: u8 = 116;
pub const FALSE_BYTE: u8 = 102;
pub const INF_BYTE: u8 = 105;
pub const DOT: u8 = 46;
pub const PLUS: u8 = 43;
pub const LOWER_E: u8 = 101;
pub const UPPER_E: u8 = 69;

pub open spec fn is_digit(b: u8) -> bool {
    DIGIT_ZERO <= b && b <= DIGIT_NINE
}

/// A byte that ends a line of text: carriage return or line feed.
pub open spec fn is_eol(b: u8) -> bool {
    b == CR || b == LF
}

pub open spec fn crlf() -> Seq<u8> {
    seq![CR, LF]
}

/// Number of ASCII digits at the start of `s`.
pub open spec fn digit_run(s: Seq<u8>) -> nat
    decreases s.len(),
{
    if s.len() > 0 && is_digit(s[0]) {
        1 + digit_run(s.drop_first())
    } else {
        0
    }
}

/// Number of bytes at the start of `s` before the first CR or LF.
pub open spec fn text_run(s: Seq<u8>) -> nat
    decreases s.len(),
{
    if s.len() > 0 && !is_eol(s[0]) {
        1 + text_run(s.drop_first())
    } else {
        0
    }
}

/// The number written by a string of decimal digits.
pub open spec fn decimal_value(d: Seq<u8>) -> nat
    decreases d.len(),
{
    if d.len() == 0 {
        0
    } else {
        10 * decimal_value(d.drop_last()) + (d.last() - DIGIT_ZERO) as nat
    }
}

/// The base-10 rendering of `n`, without sign or leading zeros.
pub open spec fn decimal_digits(n: nat) -> Seq<u8>
    decreases n,
{
    if n < 10 {
        seq![(DIGIT_ZERO + n) as u8]
    } else {
        decimal_digits(n / 10).push((DIGIT_ZERO + n % 10) as u8)
    }
}

/// The rendering of a signed integer: a `-` before the digits of a negative one.
pub open spec fn signed_digits(v: int) -> Seq<u8> {
    if v < 0 {
        seq![MINUS] + decimal_digits((-v) as nat)
    } else {
        decimal_digits(v as nat)
    }
}

pub proof fn lemma_digit_run(s: Seq<u8>)
    ensures
        digit_run(s) <= s.len(),
        forall|i: int| 0 <= i < digit_run(s) ==> is_digit(#[trigger] s[i]),
        digit_run(s) < s.len() ==> !is_digit(s[digit_run(s) as int]),
    decreases s.len(),
{
    if s.len() > 0 && is_digit(s[0]) {
        lemma_digit_run(s.drop_first());
        assert forall|i: int| 0 <= i < digit_run(s) implies is_digit(#[trigger] s[i]) by {
            if i > 0 {
                assert(s[i] == s.drop_first()[i - 1]);
            }
        }
    }
}

pub proof fn lemma_text_run(s: Seq<u8>)
    ensures
        text_run(s) <= s.len(),
        forall|i: int| 0 <= i < text_run(s) ==> !is_eol(#[trigger] s[i]),
        text_run(s) < s.len() ==> is_eol(s[text_run(s) as int]),
    decreases s.len(),
{
    if s.len() > 0 && !is_eol(s[0]) {
        lemma_text_run(s.drop_first());
        assert forall|i: int| 0 <= i < text_run(s) implies !is_eol(#[trigger] s[i]) by {
            if i > 0 {
                assert(s[i] == s.drop_first()[i - 1]);
            }
        }
    }
}

/// A run is decided by the bytes it covers and the byte after it.
pub proof fn lemma_digit_run_prefix(s: Seq<u8>, t: Seq<u8>)
    requires
        digit_run(s) < s.len(),
    ensures
        digit_run(s + t) == digit_run(s),
    decreases s.len(),
{
    if s.len() > 0 && is_digit(s[0]) {
        assert((s + t).drop_first() =~= s.drop_first() + t);
        lemma_digit_run_prefix(s.drop_first(), t);
    }
}

pub proof fn lemma_text_run_prefix(s: Seq<u8>, t: Seq<u8>)
    requires
        text_run(s) < s.len(),
    ensures
        text_run(s + t) == text_run(s),
    decreases s.len(),
{
    if s.len() > 0 && !is_eol(s[0]) {
        assert((s + t).drop_first() =~= s.drop_first() + t);
        lemma_text_run_prefix(s.drop_first(), t);
    }
}

/// Adding one digit at the end multiplies by ten and adds that digit.
pub proof fn lemma_decimal_step(s: Seq<u8>, i: int)
    requires
        0 <= i < s.len(),
    ensures
        decimal_value(s.take(i + 1)) == 10 * decimal_value(s.take(i)) + (s[i] - DIGIT_ZERO) as nat,
{
    assert(s.take(i + 1).drop_last() =~= s.take(i));
}

/// A longer run of digits never has a smaller value.
pub proof fn lemma_decimal_monotone(s: Seq<u8>, i: int, j: int)
    requires
        0 <= i <= j <= s.len(),
        forall|k: int| 0 <= k < j ==> is_digit(#[trigger] s[k]),
    ensures
        decimal_value(s.take(i)) <= decimal_value(s.take(j)),
    decreases j - i,
{
    if i < j {
        lemma_decimal_monotone(s, i, j - 1);
        lemma_decimal_step(s, j - 1);
    }
}

/// The digits of a number are digits, the first one is not a zero unless the
/// number is zero, and they read back as the number.
pub proof fn lemma_decimal_digits(n: nat)
    ensures
        decimal_digits(n).len() >= 1,
        forall|i: int| 0 <= i < decimal_digits(n).len() ==> is_digit(#[trigger] decimal_digits(n)[i]),
        decimal_value(decimal_digits(n)) == n,
        decimal_digits(n)[0] == DIGIT_ZERO ==> n == 0,
    decreases n,
{
    if n >= 10 {
        lemma_decimal_digits(n / 10);
        let d = decimal_digits(n);
        assert(d.drop_last() =~= decimal_digits(n / 10));
        assert(d.last() == (DIGIT_ZERO + n % 10) as u8);
        assert((d.last() - DIGIT_ZERO) as nat == n % 10);
        assert(decimal_value(d) == 10 * decimal_value(d.drop_last()) + (d.last() - DIGIT_ZERO) as nat);
        assert(10 * (n / 10) + n % 10 == n);
        assert forall|i: int| 0 <= i < d.len() implies is_digit(#[trigger] d[i]) by {
            if i < d.len() - 1 {
                assert(d[i] == decimal_digits(n / 10)[i]);
            }
        }
    } else {
        let d = decimal_digits(n);
        assert(d.drop_last() =~= Seq::<u8>::empty());
        assert(decimal_value(d) == 10 * decimal_value(d.drop_last()) + (d.last() - DIGIT_ZERO) as nat);
    }
}

pub proof fn lemma_digit_run_all(s: Seq<u8>, t: Seq<u8>)
    requires
        forall|i: int| 0 <= i < s.len() ==> is_digit(#[trigger] s[i]),
        t.len() > 0,
        !is_digit(t[0]),
    ensures
        digit_run(s + t) == s.len(),
    decreases s.len(),
{
    if s.len() > 0 {
        assert((s + t).drop_first() =~= s.drop_first() + t);
        lemma_digit_run_all(s.drop_first(), t);
    } else {
        assert(s + t =~= t);
    }
}

pub proof fn lemma_text_run_all(s: Seq<u8>, t: Seq<u8>)
    requires
        forall|i: int| 0 <= i < s.len() ==> !is_eol(#[trigger] s[i]),
        t.len() > 0,
        is_eol(t[0]),
    ensures
        text_run(s + t) == s.len(),
    decreases s.len(),
{
    if s.len() > 0 {
        assert((s + t).drop_first() =~= s.drop_first() + t);
        lemma_text_run_all(s.drop_first(), t);
    } else {
        assert(s + t =~= t);
    }
}

/// The literal `inf` of an infinite double.
pub open spec fn inf_literal() -> Seq<u8> {
    seq![INF_BYTE, 110u8, 102u8]
}

/// Reading a literal: its length where the input starts with it; end of
/// input where the input is a proper prefix of it.
pub open spec fn ident_spec(s: Seq<u8>, id: Seq<u8>) -> Result<nat, Error> {
    if s.len() >= id.len() && s.take(id.len() as int) == id {
        Ok(id.len())
    } else if s.len() < id.len() && id.take(s.len() as int) == s {
        Err(Error::EOF)
    } else {
        Err(Error::ExpectedValue("ident"))
    }
}

/// Reading an unsigned decimal number no larger than `max`: its value and
/// the number of digits read.
pub open spec fn unsigned_spec(s: Seq<u8>, max: nat) -> Result<(nat, nat), Error> {
    if s.len() == 0 {
        Err(Error::EOF)
    } else if s[0] == DIGIT_ZERO {
        if s.len() > 1 && is_digit(s[1]) {
            Err(Error::UnexpectedValue("number after 0"))
        } else {
            Ok((0, 1))
        }
    } else if is_digit(s[0]) {
        let n = digit_run(s);
        if decimal_value(s.take(n as int)) > max {
            Err(Error::Parse)
        } else {
            Ok((decimal_value(s.take(n as int)), n))
        }
    } else {
        Err(Error::ExpectedValue("number"))
    }
}

/// A length or count: an unsigned number that fits `usize`, then CR LF.
pub open spec fn length_spec(s: Seq<u8>) -> Result<(nat, nat), Error> {
    match unsigned_spec(s, usize::MAX as nat) {
        Ok((v, n)) => match ident_spec(s.skip(n as int), crlf()) {
            Ok(m) => Ok((v, n + m)),
            Err(e) => Err(e),
        },
        Err(e) => Err(e),
    }
}

/// The body of a length-prefixed frame (after its marker): the payload and
/// the number of bytes read.
pub open spec fn blob_spec(s: Seq<u8>) -> Result<(Seq<u8>, nat), Error> {
    match length_spec(s) {
        Ok((len, h)) => if h + len > s.len() {
            Err(Error::EOF)
        } else {
            match ident_spec(s.skip((h + len) as int), crlf()) {
                Ok(m) => Ok((s.subrange(h as int, (h + len) as int), h + len + m)),
                Err(e) => Err(e),
            }
        },
        Err(e) => Err(e),
    }
}

/// The body of a line frame (after its marker): the text before the first
/// CR or LF, and the number of bytes read.
pub open spec fn simple_spec(s: Seq<u8>) -> Result<(Seq<u8>, nat), Error> {
    let k = text_run(s);
    if k == s.len() {
        Err(Error::EOF)
    } else {
        match ident_spec(s.skip(k as int), crlf()) {
            Ok(m) => Ok((s.take(k as int), k + m)),
            Err(e) => Err(e),
        }
    }
}

/// The body of a boolean frame (after its marker).
pub open spec fn bool_spec(s: Seq<u8>) -> Result<(bool, nat), Error> {
    if s.len() == 0 {
        Err(Error::EOF)
    } else if s[0] == TRUE_BYTE || s[0] == FALSE_BYTE {
        match ident_spec(s.skip(1), crlf()) {
            Ok(m) => Ok((s[0] == TRUE_BYTE, 1 + m)),
            Err(e) => Err(e),
        }
    } else {
        Err(Error::ExpectedValue("bool"))
    }
}

/// What is left of `r` after an optional exponent: `e` or `E`, an optional
/// sign, and at least one digit. `None` where `r` holds a malformed one.
pub open spec fn after_exponent(r: Seq<u8>) -> Option<Seq<u8>> {
    if r.len() > 0 && (r[0] == LOWER_E || r[0] == UPPER_E) {
        let u = r.skip(1);
        let w = if u.len() > 0 && (u[0] == PLUS || u[0] == MINUS) {
            u.skip(1)
        } else {
            u
        };
        if digit_run(w) > 0 {
            Some(w.skip(digit_run(w) as int))
        } else {
            None
        }
    } else {
        Some(r)
    }
}

/// The text of a finite double: an optional `+`; digits, with at most one
/// `.` among them and at least one digit; then an optional exponent; and
/// nothing else.
pub open spec fn decimal_text(t: Seq<u8>) -> bool {
    let u = if t.len() > 0 && t[0] == PLUS {
        t.skip(1)
    } else {
        t
    };
    let i = digit_run(u);
    let r = u.skip(i as int);
    let (f, m) = if r.len() > 0 && r[0] == DOT {
        (digit_run(r.skip(1)), r.skip(1).skip(digit_run(r.skip(1)) as int))
    } else {
        (0nat, r)
    };
    i + f > 0 && after_exponent(m) == Some(Seq::<u8>::empty())
}

/// Reading a double (after its frame's marker), up to the CR or LF that
/// ends it: whether it is negative, its digits (none for an infinity), and
/// the number of bytes read. An infinity ends right after `inf`.
pub open spec fn double_spec(s: Seq<u8>) -> Result<(bool, Option<Seq<u8>>, nat), Error> {
    let neg = s.len() > 0 && s[0] == MINUS;
    let o: nat = if neg { 1 } else { 0 };
    let t = s.skip(o as int);
    if t.len() > 0 && t[0] == INF_BYTE {
        match ident_spec(t, inf_literal()) {
            Ok(m) => Ok((neg, None, o + m)),
            Err(e) => Err(e),
        }
    } else {
        let k = text_run(t);
        if k == t.len() {
            Err(Error::EOF)
        } else if !decimal_text(t.take(k as int)) {
            Err(Error::Parse)
        } else {
            Ok((neg, Some(t.take(k as int)), o + k))
        }
    }
}

/// The body of a double frame (after its marker): the double, then CR LF.
pub open spec fn double_line_spec(s: Seq<u8>) -> Result<(bool, Option<Seq<u8>>, nat), Error> {
    match double_spec(s) {
        Ok((neg, d, n)) => match ident_spec(s.skip(n as int), crlf()) {
            Ok(m) => Ok((neg, d, n + m)),
            Err(e) => Err(e),
        },
        Err(e) => Err(e),
    }
}

} // verus!
