//! Reading RESP3 bytes from a slice, without copying.
use vstd::prelude::*;
use vstd::slice::slice_subrange;
use vstd::utf8::{decode_utf8, valid_utf8};

use crate::error::{Error, Result};
use crate::wire::{
    after_exponent, bool_spec, crlf, decimal_text, decimal_value, digit_run,
    double_spec, ident_spec, inf_literal, is_digit, is_eol, lemma_decimal_monotone,
    lemma_decimal_step, lemma_digit_run, lemma_text_run, text_run, unsigned_spec, CR, DIGIT_NINE,
    DIGIT_ZERO, DOT, FALSE_BYTE, INF_BYTE, LF, LOWER_E, MINUS, PLUS, TRUE_BYTE, UPPER_E,
};

verus! {

/// Relies on num's `CheckedMul` for `u64`: the product, or `None` when it
/// does not fit.
#[verifier::external_body]
fn checked_mul(a: u64, b: u64) -> (r: Option<u64>)
    ensures
        r == (if a * b <= u64::MAX {
            Some((a * b) as u64)
        } else {
            None::<u64>
        }),
{
    num::CheckedMul::checked_mul(&a, &b)
}

/// Relies on num's `CheckedAdd` for `u64`: the sum, or `None` when it does
/// not fit.
#[verifier::external_body]
fn checked_add(a: u64, b: u64) -> (r: Option<u64>)
    ensures
        r == (if a + b <= u64::MAX {
            Some((a + b) as u64)
        } else {
            None::<u64>
        }),
{
    num::CheckedAdd::checked_add(&a, &b)
}

/// The length of the longest prefix of `b` among the first `n` bytes that is
/// valid UTF-8.
pub open spec fn valid_prefix_within(b: Seq<u8>, n: nat) -> nat
    decreases n,
{
    if n == 0 {
        0
    } else if valid_utf8(b.take(n as int)) {
        n
    } else {
        valid_prefix_within(b, (n - 1) as nat)
    }
}

/// The length of the longest prefix of `b` that is valid UTF-8.
pub open spec fn utf8_valid_up_to(b: Seq<u8>) -> nat {
    valid_prefix_within(b, b.len())
}

/// Relies on `std::str::from_utf8`: the text when the bytes are UTF-8, else
/// `Utf8Error::valid_up_to`, the longest prefix that is.
#[verifier::external_body]
pub(crate) fn str_from_utf8(b: &[u8]) -> (r: std::result::Result<&str, usize>)
    ensures
        match r {
            Ok(s) => valid_utf8(b@) && s@ == decode_utf8(b@),
            Err(n) => !valid_utf8(b@) && n == utf8_valid_up_to(b@),
        },
{
    std::str::from_utf8(b).map_err(|e| e.valid_up_to())
}

/// A number read from a double or integer frame. The digits of a finite
/// double are handed out as text, ready for a float parser.
#[derive(Debug, PartialEq)]
pub enum Number<'de> {
    Integer(i64),
    Infinity(bool),
    Decimal(bool, &'de [u8]),
}

/// Reader over a slice of bytes: everything it hands out borrows from the
/// slice.
pub struct RefReader<'de> {
    src: &'de [u8],
    pos: usize,
}

impl<'de> RefReader<'de> {
    /// The whole input.
    pub closed spec fn input(&self) -> Seq<u8> {
        self.src@
    }

    /// How many bytes of the input have been read.
    pub closed spec fn consumed(&self) -> nat {
        self.pos as nat
    }

    pub closed spec fn wf(&self) -> bool {
        self.pos <= self.src@.len()
    }

    /// The bytes not read yet.
    pub open spec fn rest(&self) -> Seq<u8> {
        self.input().skip(self.consumed() as int)
    }

    /// `self` reads the same input as `before`, `n` bytes further on.
    pub open spec fn advanced(&self, before: &Self, n: nat) -> bool {
        &&& self.wf()
        &&& self.input() == before.input()
        &&& self.consumed() == before.consumed() + n
    }

    /// `self` reads the same input as `before`, no earlier.
    pub open spec fn moved_on(&self, before: &Self) -> bool {
        &&& self.wf()
        &&& self.input() == before.input()
        &&& before.consumed() <= self.consumed()
    }

    /// Constructs a reader at the start of a slice.
    pub fn from_slice(slice: &'de [u8]) -> (r: Self)
        ensures
            r.wf(),
            r.input() == slice@,
            r.consumed() == 0,
    {
        RefReader { src: slice, pos: 0 }
    }

    /// Number of bytes consumed from this reader.
    pub fn consumed_bytes(&self) -> (r: usize)
        requires
            self.wf(),
        ensures
            r == self.consumed(),
    {
        self.pos
    }

    /// The whole input.
    pub fn get_ref(&self) -> (r: &'de [u8])
        ensures
            r@ == self.input(),
    {
        self.src
    }

    /// What `advanced` says of the bytes not read yet.
    pub proof fn lemma_advanced(&self, before: &Self, n: nat)
        requires
            self.advanced(before, n),
            before.wf(),
        ensures
            n <= before.rest().len(),
            self.rest() == before.rest().skip(n as int),
    {
        assert(self.rest() =~= before.rest().skip(n as int));
    }

    proof fn lemma_rest(&self)
        requires
            self.wf(),
        ensures
            self.rest().len() == self.src@.len() - self.pos,
            forall|i: int| 0 <= i < self.rest().len() ==> #[trigger] self.rest()[i] == self.src@[self.pos + i],
    {
    }

    /// The next byte, which stays unread.
    pub fn peek_u8(&self) -> (r: Option<u8>)
        requires
            self.wf(),
        ensures
            r == (if self.rest().len() > 0 {
                Some(self.rest()[0])
            } else {
                None::<u8>
            }),
    {
        proof {
            self.lemma_rest();
        }
        if self.pos < self.src.len() {
            Some(self.src[self.pos])
        } else {
            None
        }
    }

    /// Reads the next byte.
    pub fn read_u8(&mut self) -> (r: Option<u8>)
        requires
            old(self).wf(),
        ensures
            old(self).rest().len() > 0 ==> r == Some(old(self).rest()[0]) && final(self).advanced(old(self), 1),
            old(self).rest().len() == 0 ==> r is None && final(self).advanced(old(self), 0),
    {
        proof {
            self.lemma_rest();
        }
        if self.pos < self.src.len() {
            let ch = self.src[self.pos];
            self.pos = self.pos + 1;
            Some(ch)
        } else {
            None
        }
    }

    /// Reads the given literal.
    pub fn read_ident(&mut self, ident: &[u8]) -> (r: Result<()>)
        requires
            old(self).wf(),
        ensures
            final(self).moved_on(old(self)),
            match ident_spec(old(self).rest(), ident@) {
                Ok(m) => r is Ok && final(self).advanced(old(self), m),
                Err(e) => r == Err::<(), Error>(e) && *final(self) == *old(self),
            },
    {
        proof {
            self.lemma_rest();
        }
        let ghost rest = self.rest();
        let avail = self.src.len() - self.pos;
        let n = ident.len();
        let mut i: usize = 0;
        while i < n && i < avail
            invariant
                self.wf(),
                rest == self.rest(),
                avail == rest.len(),
                avail == self.src@.len() - self.pos,
                self.src@.len() <= usize::MAX,
                n == ident@.len(),
                0 <= i <= n,
                i <= avail,
                forall|k: int| 0 <= k < i ==> rest[k] == ident@[k],
            decreases n - i,
        {
            if self.src[self.pos + i] != ident[i] {
                proof {
                    if rest.len() >= ident@.len() {
                        assert(rest.take(ident@.len() as int)[i as int] != ident@[i as int]);
                    } else {
                        assert(ident@.take(rest.len() as int)[i as int] != rest[i as int]);
                    }
                }
                return Err(Error::expected_value("ident"));
            }
            i = i + 1;
        }
        if avail < n {
            assert(ident@.take(rest.len() as int) =~= rest);
            return Err(Error::eof());
        }
        assert(rest.take(ident@.len() as int) =~= ident@);
        self.pos = self.pos + n;
        Ok(())
    }

    /// Reads CR LF.
    pub fn read_crlf(&mut self) -> (r: Result<()>)
        requires
            old(self).wf(),
        ensures
            final(self).moved_on(old(self)),
            match ident_spec(old(self).rest(), crlf()) {
                Ok(m) => r is Ok && final(self).advanced(old(self), m),
                Err(e) => r == Err::<(), Error>(e) && *final(self) == *old(self),
            },
    {
        let ident: [u8; 2] = [CR, LF];
        assert(ident@ =~= crlf());
        self.read_ident(&ident)
    }

    /// Reads exactly `len` bytes, then CR LF where `consume_crlf` is set.
    pub fn read_slice(&mut self, len: usize, consume_crlf: bool) -> (r: Result<&'de [u8]>)
        requires
            old(self).wf(),
        ensures
            final(self).moved_on(old(self)),
            len > old(self).rest().len() ==> r == Err::<&[u8], Error>(Error::EOF) && *final(self)
                == *old(self),
            len <= old(self).rest().len() && !consume_crlf ==> r is Ok && r->Ok_0@ == old(self).rest().take(len as int) && final(self).advanced(old(self), len as nat),
            len <= old(self).rest().len() && consume_crlf ==> match ident_spec(
                old(self).rest().skip(len as int),
                crlf(),
            ) {
                Ok(m) => r is Ok && r->Ok_0@ == old(self).rest().take(len as int) && final(self).advanced(old(self), (len + m) as nat),
                Err(e) => r == Err::<&[u8], Error>(e) && final(self).advanced(old(self), len as nat),
            },
    {
        proof {
            self.lemma_rest();
        }
        if len > self.src.len() - self.pos {
            return Err(Error::eof());
        }
        let a = slice_subrange(self.src, self.pos, self.pos + len);
        assert(a@ =~= old(self).rest().take(len as int));
        self.pos = self.pos + len;
        assert(self.rest() =~= old(self).rest().skip(len as int));
        if consume_crlf {
            self.read_crlf()?;
        }
        Ok(a)
    }

    /// Reads the bytes before the next CR or LF, then CR LF where
    /// `consume_crlf` is set.
    pub fn read_slice_until_eol(&mut self, consume_crlf: bool) -> (r: Result<&'de [u8]>)
        requires
            old(self).wf(),
        ensures
            final(self).moved_on(old(self)),
            ({
                let k = text_run(old(self).rest());
                if k == old(self).rest().len() {
                    r == Err::<&[u8], Error>(Error::EOF) && *final(self) == *old(self)
                } else if !consume_crlf {
                    r is Ok && r->Ok_0@ == old(self).rest().take(k as int) && final(self).advanced(old(self), k)
                } else {
                    match ident_spec(old(self).rest().skip(k as int), crlf()) {
                        Ok(m) => r is Ok && r->Ok_0@ == old(self).rest().take(k as int) && final(self).advanced(old(self), k + m),
                        Err(e) => r == Err::<&[u8], Error>(e) && final(self).advanced(old(self), k),
                    }
                }
            }),
    {
        proof {
            self.lemma_rest();
            lemma_text_run(self.rest());
        }
        let ghost rest = self.rest();
        let mut i: usize = self.pos;
        while i < self.src.len() && self.src[i] != CR && self.src[i] != LF
            invariant
                self.wf(),
                rest == self.rest(),
                self.pos <= i <= self.src@.len(),
                i - self.pos <= text_run(rest),
            decreases self.src@.len() - i,
        {
            proof {
                lemma_text_run(rest);
                if i - self.pos == text_run(rest) && text_run(rest) < rest.len() {
                    assert(rest[text_run(rest) as int] == self.src@[i as int]);
                }
            }
            i = i + 1;
        }
        proof {
            if i < self.src@.len() {
                assert(rest[i - self.pos] == self.src@[i as int]);
                if i - self.pos < text_run(rest) {
                    assert(!is_eol(rest[i - self.pos]));
                }
            }
        }
        if i == self.src.len() {
            return Err(Error::eof());
        }
        let a = slice_subrange(self.src, self.pos, i);
        assert(a@ =~= rest.take(text_run(rest) as int));
        self.pos = i;
        assert(self.rest() =~= rest.skip(text_run(rest) as int));
        if consume_crlf {
            self.read_crlf()?;
        }
        Ok(a)
    }

    /// Reads an unsigned decimal number no larger than `max`.
    pub fn read_unsigned(&mut self, max: u64) -> (r: Result<u64>)
        requires
            old(self).wf(),
        ensures
            final(self).moved_on(old(self)),
            match unsigned_spec(old(self).rest(), max as nat) {
                Ok((v, n)) => r == Ok::<u64, Error>(v as u64) && final(self).advanced(old(self), n),
                Err(e) => r == Err::<u64, Error>(e),
            },
            r == Err::<u64, Error>(Error::EOF) || r == Err::<u64, Error>(Error::ExpectedValue("number"))
                ==> *final(self) == *old(self),
            r == Err::<u64, Error>(Error::UnexpectedValue("number after 0")) ==> final(self).advanced(
                old(self),
                1,
            ),
            r == Err::<u64, Error>(Error::Parse) ==> final(self).consumed() <= old(self).consumed()
                + digit_run(old(self).rest()),
    {
        let ghost rest = self.rest();
        proof {
            lemma_digit_run(rest);
        }
        let peek = match self.peek_u8() {
            Some(b) => b,
            None => return Err(Error::eof()),
        };
        if peek == DIGIT_ZERO {
            self.read_u8();
            assert(self.rest() =~= rest.drop_first());
            match self.peek_u8() {
                Some(c) => {
                    if DIGIT_ZERO <= c && c <= DIGIT_NINE {
                        return Err(Error::unexpected_value("number after 0"));
                    }
                },
                None => {},
            }
            return Ok(0);
        }
        if !(DIGIT_ZERO < peek && peek <= DIGIT_NINE) {
            return Err(Error::expected_value("number"));
        }
        self.read_u8();
        let mut num: u64 = (peek - DIGIT_ZERO) as u64;
        let mut k: usize = 1;
        proof {
            lemma_decimal_step(rest, 0);
            assert(rest.take(0) =~= Seq::<u8>::empty());
        }
        if num > max {
            proof {
                lemma_decimal_monotone(rest, 1, digit_run(rest) as int);
            }
            return Err(Error::overflow());
        }
        loop
            invariant
                self.advanced(old(self), k as nat),
                rest == old(self).rest(),
                rest.len() > 0,
                rest[0] != DIGIT_ZERO,
                is_digit(rest[0]),
                1 <= k <= digit_run(rest),
                num == decimal_value(rest.take(k as int)),
                num <= max,
                digit_run(rest) <= rest.len(),
                forall|i: int| 0 <= i < digit_run(rest) ==> is_digit(#[trigger] rest[i]),
                digit_run(rest) < rest.len() ==> !is_digit(rest[digit_run(rest) as int]),
            decreases rest.len() - k,
        {
            assert(self.rest() =~= rest.skip(k as int));
            match self.peek_u8() {
                Some(c) => {
                    if DIGIT_ZERO <= c && c <= DIGIT_NINE {
                        assert(c == rest[k as int]);
                        assert(k < digit_run(rest)) by {
                            if k == digit_run(rest) {
                                assert(!is_digit(rest[k as int]));
                            }
                        }
                        proof {
                            lemma_decimal_step(rest, k as int);
                            lemma_decimal_monotone(rest, k + 1, digit_run(rest) as int);
                        }
                        let d = (c - DIGIT_ZERO) as u64;
                        match checked_mul(num, 10) {
                            Some(t) => match checked_add(t, d) {
                                Some(v) => {
                                    if v > max {
                                        return Err(Error::overflow());
                                    }
                                    num = v;
                                },
                                None => return Err(Error::overflow()),
                            },
                            None => return Err(Error::overflow()),
                        }
                        self.read_u8();
                        k = k + 1;
                    } else {
                        assert(k == digit_run(rest)) by {
                            if k < digit_run(rest) {
                                assert(is_digit(rest[k as int]));
                            }
                        }
                        return Ok(num);
                    }
                },
                None => {
                    return Ok(num);
                },
            }
        }
    }

    /// Reads a length or count: an unsigned number that fits `usize`.
    pub fn read_length(&mut self) -> (r: Result<usize>)
        requires
            old(self).wf(),
        ensures
            final(self).moved_on(old(self)),
            match unsigned_spec(old(self).rest(), usize::MAX as nat) {
                Ok((v, n)) => r == Ok::<usize, Error>(v as usize) && final(self).advanced(old(self), n),
                Err(e) => r == Err::<usize, Error>(e),
            },
    {
        let v = self.read_unsigned(usize::MAX as u64)?;
        Ok(v as usize)
    }

    /// Reads the body of a boolean frame, CR LF included.
    pub fn read_bool(&mut self) -> (r: Result<bool>)
        requires
            old(self).wf(),
        ensures
            final(self).moved_on(old(self)),
            match bool_spec(old(self).rest()) {
                Ok((v, n)) => r == Ok::<bool, Error>(v) && final(self).advanced(old(self), n),
                Err(e) => r == Err::<bool, Error>(e) && final(self).advanced(old(self), if old(self).rest().len() > 0 && (old(self).rest()[0] == TRUE_BYTE || old(self).rest()[0] == FALSE_BYTE) { 1 } else { 0 }),
            },
    {
        let ghost rest = self.rest();
        match self.peek_u8() {
            Some(b) => {
                if b == TRUE_BYTE || b == FALSE_BYTE {
                    self.read_u8();
                    assert(self.rest() =~= rest.skip(1));
                    self.read_crlf()?;
                    Ok(b == TRUE_BYTE)
                } else {
                    Err(Error::expected_value("bool"))
                }
            },
            None => Err(Error::eof()),
        }
    }

    /// Reads a double, up to the CR or LF that ends it.
    pub fn read_double(&mut self) -> (r: Result<Number<'de>>)
        requires
            old(self).wf(),
        ensures
            final(self).moved_on(old(self)),
            match double_spec(old(self).rest()) {
                Ok((neg, None, n)) => r == Ok::<Number, Error>(Number::Infinity(neg)) && final(self).advanced(old(self), n),
                Ok((neg, Some(t), n)) => r is Ok && r->Ok_0 is Decimal && r->Ok_0->Decimal_0 == neg
                    && r->Ok_0->Decimal_1@ == t && final(self).advanced(old(self), n),
                Err(e) => r == Err::<Number, Error>(e),
            },
    {
        let ghost rest = self.rest();
        let mut negative = false;
        if self.peek_u8() == Some(MINUS) {
            negative = true;
            self.read_u8();
        }
        let ghost o: nat = if negative { 1 } else { 0 };
        assert(self.rest() =~= rest.skip(o as int));
        if self.peek_u8() == Some(INF_BYTE) {
            let inf: [u8; 3] = [INF_BYTE, 110, 102];
            assert(inf@ =~= inf_literal());
            self.read_ident(&inf)?;
            return Ok(Number::Infinity(negative));
        }
        let ghost t = self.rest();
        let text = self.read_slice_until_eol(false)?;
        if !is_decimal_text(text) {
            return Err(Error::parse());
        }
        Ok(Number::Decimal(negative, text))
    }
}

} // verus!

verus! {

/// The position after the run of digits of `t` that starts at `i`.
fn skip_digits(t: &[u8], i: usize) -> (r: usize)
    requires
        i <= t@.len(),
    ensures
        r == i + digit_run(t@.skip(i as int)),
        r <= t@.len(),
{
    let ghost ts = t@.skip(i as int);
    proof {
        lemma_digit_run(ts);
    }
    let mut j: usize = i;
    while j < t.len() && DIGIT_ZERO <= t[j] && t[j] <= DIGIT_NINE
        invariant
            i <= j <= t@.len(),
            ts == t@.skip(i as int),
            j - i <= digit_run(ts),
            digit_run(ts) <= ts.len(),
            digit_run(ts) < ts.len() ==> !is_digit(ts[digit_run(ts) as int]),
        decreases t@.len() - j,
    {
        assert(ts[j - i] == t@[j as int]);
        j = j + 1;
    }
    proof {
        if j - i < digit_run(ts) {
            lemma_digit_run(ts);
            assert(ts[j - i] == t@[j as int]);
        }
    }
    j
}

/// Whether what follows position `m` of `t` is an optional exponent and
/// nothing else.
fn exponent_ends(t: &[u8], m: usize) -> (r: bool)
    requires
        m <= t@.len(),
    ensures
        r == (after_exponent(t@.skip(m as int)) == Some(Seq::<u8>::empty())),
{
    let ghost s = t@;
    let ghost ms = s.skip(m as int);
    if m < t.len() && (t[m] == LOWER_E || t[m] == UPPER_E) {
        let mut w = m + 1;
        assert(ms.skip(1) =~= s.skip(w as int));
        if w < t.len() && (t[w] == PLUS || t[w] == MINUS) {
            assert(s.skip(w as int).skip(1) =~= s.skip(w + 1));
            w = w + 1;
        }
        let e = skip_digits(t, w);
        assert(s.skip(w as int).skip(e - w) =~= s.skip(e as int));
        assert(e == t@.len() ==> s.skip(e as int) =~= Seq::<u8>::empty());
        e > w && e == t.len()
    } else {
        assert(m == t@.len() ==> ms =~= Seq::<u8>::empty());
        m == t.len()
    }
}

/// Whether `t` is the text of a finite double.
pub fn is_decimal_text(t: &[u8]) -> (r: bool)
    ensures
        r == decimal_text(t@),
{
    let ghost s = t@;
    let start: usize = if t.len() > 0 && t[0] == PLUS {
        1
    } else {
        0
    };
    assert(s.skip(0) =~= s);
    let i_end = skip_digits(t, start);
    assert(s.skip(start as int).skip(i_end - start) =~= s.skip(i_end as int));
    if i_end < t.len() && t[i_end] == DOT {
        let e = skip_digits(t, i_end + 1);
        assert(s.skip(i_end as int).skip(1) =~= s.skip(i_end + 1));
        assert(s.skip(i_end + 1).skip(e - (i_end + 1)) =~= s.skip(e as int));
        if i_end - start + (e - (i_end + 1)) == 0 {
            return false;
        }
        exponent_ends(t, e)
    } else {
        if i_end - start == 0 {
            return false;
        }
        exponent_ends(t, i_end)
    }
}

} // verus!
