//! The decoder driver: reads one RESP3 frame at a time in the shape that the
//! caller asks for, skipping attribute frames on the way.
use vstd::prelude::*;

use crate::error::{Error, Result};
use crate::read::{str_from_utf8, utf8_valid_up_to, Number, RefReader};
use crate::wire::{
    DIGIT_NINE, DIGIT_ZERO, blob_spec, bool_spec, crlf, double_line_spec, double_spec, ident_spec, is_digit, length_spec, simple_spec,
    unsigned_spec, ARRAY, ATTRIBUTE, BLOB_ERROR, BLOB_STRING, BOOLEAN, DOUBLE, MAP, MINUS, NULL,
    NUMBER, PUSH, SET, SIMPLE_ERROR, SIMPLE_STRING, VERBATIM_STRING,
};
use vstd::utf8::{decode_utf8, valid_utf8};

verus! {

/// What a number read by [`Deserializer::deserialize_f64`] stands for.
pub enum NumberView {
    Integer(int),
    Infinity(bool),
    Decimal(bool, Seq<u8>),
}

impl<'de> View for Number<'de> {
    type V = NumberView;

    open spec fn view(&self) -> NumberView {
        match self {
            Number::Integer(v) => NumberView::Integer(*v as int),
            Number::Infinity(neg) => NumberView::Infinity(*neg),
            Number::Decimal(neg, d) => NumberView::Decimal(*neg, d@),
        }
    }
}

/// The category that a frame's marker selects when the caller takes any value.
#[derive(PartialEq, Eq, Structural, Clone, Copy, Debug)]
pub enum Category {
    Str,
    Bool,
    Signed,
    Float,
    Sequence,
    Mapping,
}

/// The four string frames that a tagged wrapper can insist on.
#[derive(PartialEq, Eq, Structural, Clone, Copy, Debug)]
pub enum StringKind {
    SimpleString,
    BlobString,
    SimpleError,
    BlobError,
}

impl StringKind {
    pub open spec fn marker(self) -> u8 {
        match self {
            StringKind::SimpleString => SIMPLE_STRING,
            StringKind::BlobString => BLOB_STRING,
            StringKind::SimpleError => SIMPLE_ERROR,
            StringKind::BlobError => BLOB_ERROR,
        }
    }

    /// Whether the frame is length-prefixed rather than ended by CR LF.
    pub open spec fn is_blob(self) -> bool {
        self == StringKind::BlobString || self == StringKind::BlobError
    }

    pub open spec fn name(self) -> &'static str {
        match self {
            StringKind::SimpleString => "simple string",
            StringKind::BlobString => "blob string",
            StringKind::SimpleError => "simple error",
            StringKind::BlobError => "blob error",
        }
    }
}

pub open spec fn is_text_marker(m: u8) -> bool {
    m == SIMPLE_STRING || m == SIMPLE_ERROR || m == BLOB_STRING || m == BLOB_ERROR
        || m == VERBATIM_STRING
}

/// The category that a marker selects for an untyped read.
pub open spec fn category_of(m: u8) -> Option<Category> {
    if is_text_marker(m) {
        Some(Category::Str)
    } else if m == BOOLEAN {
        Some(Category::Bool)
    } else if m == NUMBER {
        Some(Category::Signed)
    } else if m == DOUBLE {
        Some(Category::Float)
    } else if m == ARRAY || m == SET {
        Some(Category::Sequence)
    } else if m == MAP || m == ATTRIBUTE {
        Some(Category::Mapping)
    } else {
        None
    }
}

/// The bytes taken by the attributes before the next frame, where
/// skipping them succeeds.
pub open spec fn attributes_len(s: Seq<u8>, skip: bool) -> nat {
    peek_spec(s, skip)->Ok_0
}

/// Adds `k` bytes in front of the bytes that a successful read consumed.
pub open spec fn shifted(r: Result<nat>, k: nat) -> Result<nat> {
    match r {
        Ok(n) => Ok(k + n),
        Err(e) => Err(e),
    }
}

/// Looking at the next marker of `s`: where `skip` is set, attribute frames
/// are skipped first, as many as come one after the other. The number of
/// bytes skipped; the marker is the byte after them.
pub open spec fn peek_spec(s: Seq<u8>, skip: bool) -> Result<nat>
    decreases s.len(), 1int,
{
    if s.len() == 0 {
        Err(Error::EOF)
    } else if s[0] == ATTRIBUTE && skip {
        match attribute_skip_spec(s) {
            Ok(a) => if 0 < a <= s.len() {
                shifted(peek_spec(s.skip(a as int), skip), a)
            } else {
                Err(Error::EOF)
            },
            Err(e) => Err(e),
        }
    } else {
        Ok(0)
    }
}

/// Skipping a whole attribute frame: its header and every key and value in it.
pub open spec fn attribute_skip_spec(s: Seq<u8>) -> Result<nat>
    decreases s.len(), 0int,
{
    if s.len() == 0 {
        Err(Error::EOF)
    } else if s[0] != ATTRIBUTE {
        Err(Error::ExpectedMarker("attribute"))
    } else {
        match length_spec(s.skip(1)) {
            Ok((c, h)) => if 1 + h <= s.len() {
                shifted(skip_values_spec(s.skip((1 + h) as int), 2 * c), 1 + h)
            } else {
                Err(Error::EOF)
            },
            Err(e) => Err(e),
        }
    }
}

/// Skipping `n` values one after the other.
pub open spec fn skip_values_spec(s: Seq<u8>, n: nat) -> Result<nat>
    decreases s.len(), n + 5,
{
    if n == 0 {
        Ok(0)
    } else {
        match skip_any_spec(s) {
            Ok(k) => if k <= s.len() {
                shifted(skip_values_spec(s.skip(k as int), (n - 1) as nat), k)
            } else {
                Err(Error::EOF)
            },
            Err(e) => Err(e),
        }
    }
}

/// Skipping one value of any shape, an attribute before it included.
pub open spec fn skip_any_spec(s: Seq<u8>) -> Result<nat>
    decreases s.len(), 4int,
{
    match peek_spec(s, true) {
        Ok(a) => if a < s.len() {
            let t = s.skip(a as int);
            let u = t.skip(1);
            match category_of(t[0]) {
                Some(Category::Sequence) => match length_spec(u) {
                    Ok((c, h)) => if 1 + h <= t.len() {
                        shifted(skip_values_spec(t.skip((1 + h) as int), c), a + 1 + h)
                    } else {
                        Err(Error::EOF)
                    },
                    Err(e) => Err(e),
                },
                Some(Category::Mapping) => match de_map_spec(t, true) {
                    Ok((c, _, h)) => if 1 <= h <= t.len() {
                        shifted(skip_values_spec(t.skip(h as int), 2 * c), a + h)
                    } else {
                        Err(Error::EOF)
                    },
                    Err(e) => Err(e),
                },
                Some(_) => shifted(scalar_skip_spec(t), a),
                None => Err(Error::ExpectedValue("type header")),
            }
        } else {
            Err(Error::EOF)
        },
        Err(e) => Err(e),
    }
}

/// Skipping a frame that holds no other frame (its marker included): text,
/// boolean, number or double.
#[verifier::opaque]
pub open spec fn scalar_skip_spec(t: Seq<u8>) -> Result<nat> {
    let u = t.skip(1);
    if is_text_marker(t[0]) {
        match utf8_spec(text_body_spec(t)) {
            Ok((_, n)) => Ok(n),
            Err(e) => Err(e),
        }
    } else if t[0] == BOOLEAN {
        match bool_spec(u) {
            Ok((_, n)) => Ok(1 + n),
            Err(e) => Err(e),
        }
    } else if t[0] == NUMBER {
        match signed_spec(u) {
            Ok((_, n)) => Ok(1 + n),
            Err(e) => Err(e),
        }
    } else {
        match double_line_spec(u) {
            Ok((_, _, n)) => Ok(1 + n),
            Err(e) => Err(e),
        }
    }
}

/// A text frame (its marker included): the payload and the bytes read.
pub open spec fn text_body_spec(t: Seq<u8>) -> Result<(Seq<u8>, nat)> {
    let r = if t[0] == SIMPLE_STRING || t[0] == SIMPLE_ERROR {
        simple_spec(t.skip(1))
    } else {
        blob_spec(t.skip(1))
    };
    match r {
        Ok((p, n)) => Ok((p, 1 + n)),
        Err(e) => Err(e),
    }
}

/// The value of a number frame's body (after its marker).
pub open spec fn signed_spec(u: Seq<u8>) -> Result<(int, nat)> {
    if u.len() == 0 {
        Err(Error::EOF)
    } else if u[0] == MINUS {
        match unsigned_spec(u.skip(1), i64::MAX as nat) {
            Ok((v, n)) => match ident_spec(u.skip((1 + n) as int), crlf()) {
                Ok(m) => Ok((-v, 1 + n + m)),
                Err(e) => Err(e),
            },
            Err(e) => Err(e),
        }
    } else if is_digit(u[0]) {
        match unsigned_spec(u, i64::MAX as nat) {
            Ok((v, n)) => match ident_spec(u.skip(n as int), crlf()) {
                Ok(m) => Ok((v as int, n + m)),
                Err(e) => Err(e),
            },
            Err(e) => Err(e),
        }
    } else {
        Err(Error::ExpectedValue("number"))
    }
}

/// The value of a number frame's body (after its marker), read as unsigned.
pub open spec fn unsigned_body_spec(u: Seq<u8>) -> Result<(nat, nat)> {
    if u.len() == 0 {
        Err(Error::EOF)
    } else if u[0] == MINUS {
        Err(Error::UnexpectedValue("signed"))
    } else if is_digit(u[0]) {
        match unsigned_spec(u, u64::MAX as nat) {
            Ok((v, n)) => match ident_spec(u.skip(n as int), crlf()) {
                Ok(m) => Ok((v, n + m)),
                Err(e) => Err(e),
            },
            Err(e) => Err(e),
        }
    } else {
        Err(Error::ExpectedValue("number"))
    }
}

pub open spec fn de_bool_spec(s: Seq<u8>, skip: bool) -> Result<(bool, nat)>
    decreases s.len(), 2int,
{
    match peek_spec(s, skip) {
        Ok(a) => {
            let t = s.skip(a as int);
            if t[0] == BOOLEAN {
                match bool_spec(t.skip(1)) {
                    Ok((v, n)) => Ok((v, a + 1 + n)),
                    Err(e) => Err(e),
                }
            } else {
                Err(Error::ExpectedMarker("bool"))
            }
        },
        Err(e) => Err(e),
    }
}

pub open spec fn de_i64_spec(s: Seq<u8>, skip: bool) -> Result<(int, nat)>
    decreases s.len(), 2int,
{
    match peek_spec(s, skip) {
        Ok(a) => {
            let t = s.skip(a as int);
            if t[0] == NUMBER {
                match signed_spec(t.skip(1)) {
                    Ok((v, n)) => Ok((v, a + 1 + n)),
                    Err(e) => Err(e),
                }
            } else {
                Err(Error::ExpectedMarker("number"))
            }
        },
        Err(e) => Err(e),
    }
}

pub open spec fn de_u64_spec(s: Seq<u8>, skip: bool) -> Result<(nat, nat)>
    decreases s.len(), 2int,
{
    match peek_spec(s, skip) {
        Ok(a) => {
            let t = s.skip(a as int);
            if t[0] == NUMBER {
                match unsigned_body_spec(t.skip(1)) {
                    Ok((v, n)) => Ok((v, a + 1 + n)),
                    Err(e) => Err(e),
                }
            } else {
                Err(Error::ExpectedMarker("number"))
            }
        },
        Err(e) => Err(e),
    }
}

pub open spec fn de_f64_spec(s: Seq<u8>, skip: bool) -> Result<(NumberView, nat)>
    decreases s.len(), 2int,
{
    match peek_spec(s, skip) {
        Ok(a) => {
            let t = s.skip(a as int);
            if t[0] == NUMBER {
                match signed_spec(t.skip(1)) {
                    Ok((v, n)) => Ok((NumberView::Integer(v), a + 1 + n)),
                    Err(e) => Err(e),
                }
            } else if t[0] == DOUBLE {
                match double_line_spec(t.skip(1)) {
                    Ok((neg, None, n)) => Ok((NumberView::Infinity(neg), a + 1 + n)),
                    Ok((neg, Some(d), n)) => Ok((NumberView::Decimal(neg, d), a + 1 + n)),
                    Err(e) => Err(e),
                }
            } else {
                Err(Error::ExpectedMarker("number|double"))
            }
        },
        Err(e) => Err(e),
    }
}

/// The payload of any of the five text frames.
pub open spec fn text_spec(s: Seq<u8>, skip: bool) -> Result<(Seq<u8>, nat)>
    decreases s.len(), 2int,
{
    match peek_spec(s, skip) {
        Ok(a) => {
            let t = s.skip(a as int);
            if t[0] == SIMPLE_STRING || t[0] == SIMPLE_ERROR {
                match simple_spec(t.skip(1)) {
                    Ok((p, n)) => Ok((p, a + 1 + n)),
                    Err(e) => Err(e),
                }
            } else if t[0] == BLOB_STRING || t[0] == BLOB_ERROR || t[0] == VERBATIM_STRING {
                match blob_spec(t.skip(1)) {
                    Ok((p, n)) => Ok((p, a + 1 + n)),
                    Err(e) => Err(e),
                }
            } else {
                Err(Error::ExpectedMarker("string|error"))
            }
        },
        Err(e) => Err(e),
    }
}

/// A payload taken as text: it must be UTF-8.
pub open spec fn utf8_spec(r: Result<(Seq<u8>, nat)>) -> Result<(Seq<char>, nat)> {
    match r {
        Ok((p, n)) => if valid_utf8(p) {
            Ok((decode_utf8(p), n))
        } else {
            Err(Error::UTF8(utf8_valid_up_to(p) as usize))
        },
        Err(e) => Err(e),
    }
}

/// The text of any of the five text frames.
pub open spec fn str_spec(s: Seq<u8>, skip: bool) -> Result<(Seq<char>, nat)>
    decreases s.len(), 3int,
{
    utf8_spec(text_spec(s, skip))
}

/// An optional value: absent on a null frame, which is consumed; present
/// otherwise, with only the attributes before it consumed.
pub open spec fn de_option_spec(s: Seq<u8>, skip: bool) -> Result<(bool, nat)> {
    match peek_spec(s, skip) {
        Ok(a) => {
            let t = s.skip(a as int);
            if t[0] == NULL {
                match ident_spec(t.skip(1), crlf()) {
                    Ok(m) => Ok((false, a + 1 + m)),
                    Err(e) => Err(e),
                }
            } else {
                Ok((true, a))
            }
        },
        Err(e) => Err(e),
    }
}

pub open spec fn de_unit_spec(s: Seq<u8>, skip: bool) -> Result<nat> {
    match peek_spec(s, skip) {
        Ok(a) => {
            let t = s.skip(a as int);
            if t[0] == NULL {
                match ident_spec(t.skip(1), crlf()) {
                    Ok(m) => Ok(a + 1 + m),
                    Err(e) => Err(e),
                }
            } else {
                Err(Error::ExpectedMarker("null"))
            }
        },
        Err(e) => Err(e),
    }
}

/// The header of an array or set frame: its count.
pub open spec fn de_seq_spec(s: Seq<u8>, skip: bool) -> Result<(nat, nat)>
    decreases s.len(), 2int,
{
    match peek_spec(s, skip) {
        Ok(a) => {
            let t = s.skip(a as int);
            if t[0] == ARRAY || t[0] == SET {
                match length_spec(t.skip(1)) {
                    Ok((c, n)) => Ok((c, a + 1 + n)),
                    Err(e) => Err(e),
                }
            } else {
                Err(Error::ExpectedMarker("array|set"))
            }
        },
        Err(e) => Err(e),
    }
}

/// The header of a map frame, or of an attribute frame read as a map: its
/// count of entries, and whether attributes are skipped inside it.
pub open spec fn de_map_spec(s: Seq<u8>, skip: bool) -> Result<(nat, bool, nat)>
    decreases s.len(), 2int,
{
    match peek_spec(s, skip) {
        Ok(a) => {
            let t = s.skip(a as int);
            if t[0] == MAP || t[0] == ATTRIBUTE {
                match length_spec(t.skip(1)) {
                    Ok((c, n)) => Ok((c, if t[0] == MAP { skip } else { true }, a + 1 + n)),
                    Err(e) => Err(e),
                }
            } else {
                Err(Error::ExpectedMarker("map"))
            }
        },
        Err(e) => Err(e),
    }
}

/// The header of a push frame: its count.
pub open spec fn de_push_spec(s: Seq<u8>, skip: bool) -> Result<(nat, nat)> {
    match peek_spec(s, skip) {
        Ok(a) => {
            let t = s.skip(a as int);
            if t[0] == PUSH {
                match length_spec(t.skip(1)) {
                    Ok((c, n)) => Ok((c, a + 1 + n)),
                    Err(e) => Err(e),
                }
            } else {
                Err(Error::ExpectedMarker("push"))
            }
        },
        Err(e) => Err(e),
    }
}

/// The category of the next value, after the attributes before it.
pub open spec fn de_any_spec(s: Seq<u8>, skip: bool) -> Result<(Category, nat)> {
    match peek_spec(s, skip) {
        Ok(a) => match category_of(s[a as int]) {
            Some(c) => Ok((c, a)),
            None => Err(Error::ExpectedValue("type header")),
        },
        Err(e) => Err(e),
    }
}

/// A frame of one given string kind, after the attributes before it.
pub open spec fn tagged_spec(s: Seq<u8>, skip: bool, kind: StringKind) -> Result<(Seq<char>, nat)> {
    match peek_spec(s, skip) {
        Ok(a) => {
            let t = s.skip(a as int);
            if t[0] != kind.marker() {
                Err(Error::ExpectedMarker(kind.name()))
            } else {
                let body = if kind.is_blob() {
                    blob_spec(t.skip(1))
                } else {
                    simple_spec(t.skip(1))
                };
                utf8_spec(
                    match body {
                        Ok((p, n)) => Ok((p, a + 1 + n)),
                        Err(e) => Err(e),
                    },
                )
            }
        },
        Err(e) => Err(e),
    }
}

} // verus!

verus! {

/// A RESP3 deserializer over a slice of bytes. Attribute frames before a
/// value are skipped while `skip_attribute` is set, which it is by default.
pub struct Deserializer<'de> {
    reader: RefReader<'de>,
    skip_attribute: bool,
}

impl<'de> Deserializer<'de> {
    pub closed spec fn reader(&self) -> RefReader<'de> {
        self.reader
    }

    /// Whether attribute frames before a value are skipped.
    pub closed spec fn skips_attributes(&self) -> bool {
        self.skip_attribute
    }

    pub open spec fn wf(&self) -> bool {
        self.reader().wf()
    }

    /// The bytes not read yet.
    pub open spec fn rest(&self) -> Seq<u8> {
        self.reader().rest()
    }

    /// `self` reads the same input as `before`, `n` bytes further on, with
    /// the same setting.
    pub open spec fn advanced(&self, before: &Self, n: nat) -> bool {
        &&& self.reader().advanced(&before.reader(), n)
        &&& self.skips_attributes() == before.skips_attributes()
    }

    /// `self` reads the same input as `before`, no earlier, with the same
    /// setting.
    pub open spec fn moved_on(&self, before: &Self) -> bool {
        &&& self.reader().moved_on(&before.reader())
        &&& self.skips_attributes() == before.skips_attributes()
    }

    /// How many bytes `self` has read since `before`.
    pub open spec fn read_since(&self, before: &Self) -> nat {
        (self.reader().consumed() - before.reader().consumed()) as nat
    }

    proof fn lemma_progress(&self, before: &Self)
        requires
            self.reader().moved_on(&before.reader()),
            before.wf(),
        ensures
            self.read_since(before) <= before.rest().len(),
            self.rest() == before.rest().skip(self.read_since(before) as int),
            self.reader().advanced(&before.reader(), self.read_since(before)),
    {
        self.reader().lemma_advanced(&before.reader(), self.read_since(before));
    }

    /// Creates a deserializer at the start of a slice of bytes.
    pub fn from_slice(slice: &'de [u8]) -> (r: Self)
        ensures
            r.wf(),
            r.reader().input() == slice@,
            r.reader().consumed() == 0,
            r.rest() == slice@,
            r.skips_attributes(),
    {
        let r = Deserializer { reader: RefReader::from_slice(slice), skip_attribute: true };
        assert(r.rest() =~= slice@);
        r
    }

    /// Returns the underlying slice.
    pub fn get_ref(&self) -> (r: &'de [u8])
        ensures
            r@ == self.reader().input(),
    {
        self.reader.get_ref()
    }

    /// Returns the number of bytes consumed from the slice.
    pub fn get_consumed_bytes(&self) -> (r: usize)
        requires
            self.wf(),
        ensures
            r == self.reader().consumed(),
    {
        self.reader.consumed_bytes()
    }

    /// Sets whether attributes before a value are skipped; returns the
    /// previous setting.
    pub fn set_skip_attribute(&mut self, skip: bool) -> (r: bool)
        ensures
            r == old(self).skips_attributes(),
            final(self).skips_attributes() == skip,
            final(self).reader() == old(self).reader(),
    {
        let last = self.skip_attribute;
        self.skip_attribute = skip;
        last
    }

    /// Reads the body of a length-prefixed frame, after its marker.
    pub fn parse_blob_string(&mut self) -> (r: Result<&'de [u8]>)
        requires
            old(self).wf(),
        ensures
            final(self).moved_on(old(self)),
            match blob_spec(old(self).rest()) {
                Ok((p, n)) => r is Ok && r->Ok_0@ == p && final(self).advanced(old(self), n),
                Err(e) => r == Err::<&[u8], Error>(e),
            },
    {
        let ghost s = self.rest();
        let len = self.reader.read_length()?;
        proof {
            self.lemma_progress(old(self));
        }
        let ghost s1 = self.rest();
        self.reader.read_crlf()?;
        proof {
            self.lemma_progress(old(self));
            assert(self.rest() =~= s.skip(length_spec(s)->Ok_0.1 as int));
        }
        proof {
            let h = length_spec(s)->Ok_0.1;
            if h + len <= s.len() {
                assert(s.skip(h as int).skip(len as int) =~= s.skip(h + len));
                assert(s.skip(h as int).take(len as int) =~= s.subrange(h as int, h + len));
            }
        }
        let slice = self.reader.read_slice(len, true)?;
        proof {
            self.lemma_progress(old(self));
        }
        Ok(slice)
    }

    /// Reads the body of a line frame, after its marker.
    pub fn parse_simple_string(&mut self) -> (r: Result<&'de [u8]>)
        requires
            old(self).wf(),
        ensures
            final(self).moved_on(old(self)),
            match simple_spec(old(self).rest()) {
                Ok((p, n)) => r is Ok && r->Ok_0@ == p && final(self).advanced(old(self), n),
                Err(e) => r == Err::<&[u8], Error>(e),
            },
    {
        self.reader.read_slice_until_eol(true)
    }

    /// Looks at the next marker, skipping an attribute frame first where
    /// attributes are skipped.
    pub fn peek_skip_attribute(&mut self) -> (r: Result<u8>)
        requires
            old(self).wf(),
        ensures
            final(self).moved_on(old(self)),
            match peek_spec(old(self).rest(), old(self).skips_attributes()) {
                Ok(a) => r == Ok::<u8, Error>(old(self).rest()[a as int]) && final(self).advanced(
                    old(self),
                    a,
                ) && a < old(self).rest().len(),
                Err(e) => r == Err::<u8, Error>(e),
            },
        decreases old(self).rest().len(), 1int,
    {
        let ghost s0 = self.rest();
        assert(s0.skip(0) =~= s0);
        loop
            invariant
                old(self).wf(),
                s0 == old(self).rest(),
                self.moved_on(old(self)),
                self.rest() == s0.skip(self.read_since(old(self)) as int),
                peek_spec(s0, self.skips_attributes()) == shifted(
                    peek_spec(self.rest(), self.skips_attributes()),
                    self.read_since(old(self)),
                ),
            decreases self.rest().len(),
        {
            proof {
                self.lemma_progress(old(self));
            }
            let peek = match self.reader.peek_u8() {
                Some(b) => b,
                None => return Err(Error::eof()),
            };
            if peek == ATTRIBUTE && self.skip_attribute {
                let ghost cur = self.rest();
                self.skip_attribute()?;
                proof {
                    self.lemma_progress(old(self));
                    let k = attribute_skip_spec(cur)->Ok_0;
                    assert(self.rest() =~= cur.skip(k as int));
                }
            } else {
                return Ok(peek);
            }
        }
    }

    /// Skips a whole attribute frame, which must come next.
    pub fn skip_attribute(&mut self) -> (r: Result<()>)
        requires
            old(self).wf(),
            old(self).skips_attributes(),
        ensures
            final(self).moved_on(old(self)),
            match attribute_skip_spec(old(self).rest()) {
                Ok(n) => r is Ok && final(self).advanced(old(self), n) && n >= 1,
                Err(e) => r == Err::<(), Error>(e),
            },
        decreases old(self).rest().len(), 0int,
    {
        let ghost s = self.rest();
        let peek = match self.reader.peek_u8() {
            Some(b) => b,
            None => return Err(Error::eof()),
        };
        if peek != ATTRIBUTE {
            return Err(Error::expected_marker("attribute"));
        }
        self.reader.read_u8();
        proof {
            self.lemma_progress(old(self));
        }
        let len = self.read_header()?;
        proof {
            self.lemma_progress(old(self));
            assert(self.rest() =~= s.skip(self.read_since(old(self)) as int));
        }
        self.skip_pairs(len)
    }

    /// Reads a length or count and the CR LF after it.
    fn read_header(&mut self) -> (r: Result<usize>)
        requires
            old(self).wf(),
        ensures
            final(self).moved_on(old(self)),
            match length_spec(old(self).rest()) {
                Ok((c, n)) => r == Ok::<usize, Error>(c as usize) && final(self).advanced(
                    old(self),
                    n,
                ) && c <= usize::MAX,
                Err(e) => r == Err::<usize, Error>(e),
            },
    {
        let ghost s = self.rest();
        let len = self.reader.read_length()?;
        proof {
            self.lemma_progress(old(self));
        }
        self.reader.read_crlf()?;
        proof {
            self.lemma_progress(old(self));
        }
        Ok(len)
    }

    proof fn lemma_values_step(cur: Seq<u8>, m: nat)
        requires
            m > 0,
        ensures
            skip_values_spec(cur, m) == match skip_any_spec(cur) {
                Ok(k) => if k <= cur.len() {
                    shifted(skip_values_spec(cur.skip(k as int), (m - 1) as nat), k)
                } else {
                    Err(Error::EOF)
                },
                Err(e) => Err(e),
            },
    {
    }

    /// Skips `n` values.
    pub fn skip_values(&mut self, n: usize) -> (r: Result<()>)
        requires
            old(self).wf(),
            old(self).skips_attributes(),
        ensures
            final(self).moved_on(old(self)),
            match skip_values_spec(old(self).rest(), n as nat) {
                Ok(k) => r is Ok && final(self).advanced(old(self), k),
                Err(e) => r == Err::<(), Error>(e),
            },
        decreases old(self).rest().len(), 5int,
    {
        let ghost s0 = self.rest();
        let mut i: usize = 0;
        assert(s0.skip(0) =~= s0);
        while i < n
            invariant
                0 <= i <= n,
                old(self).wf(),
                old(self).skips_attributes(),
                self.moved_on(old(self)),
                s0 == old(self).rest(),
                self.rest() == s0.skip(self.read_since(old(self)) as int),
                skip_values_spec(s0, n as nat) == shifted(
                    skip_values_spec(self.rest(), (n - i) as nat),
                    self.read_since(old(self)),
                ),
            decreases n - i,
        {
            proof {
                self.lemma_progress(old(self));
                Self::lemma_values_step(self.rest(), (n - i) as nat);
            }
            let ghost cur = self.rest();
            let ghost before = self.read_since(old(self));
            self.skip_any()?;
            proof {
                self.lemma_progress(old(self));
                let k = skip_any_spec(cur)->Ok_0;
                assert(self.rest() =~= cur.skip(k as int));
            }
            i = i + 1;
        }
        Ok(())
    }

    /// Skips `n` entries of a map or an attribute: a key and a value each.
    pub fn skip_pairs(&mut self, n: usize) -> (r: Result<()>)
        requires
            old(self).wf(),
            old(self).skips_attributes(),
        ensures
            final(self).moved_on(old(self)),
            match skip_values_spec(old(self).rest(), 2 * n as nat) {
                Ok(k) => r is Ok && final(self).advanced(old(self), k),
                Err(e) => r == Err::<(), Error>(e),
            },
        decreases old(self).rest().len(), 5int,
    {
        let ghost s0 = self.rest();
        let mut i: usize = 0;
        assert(s0.skip(0) =~= s0);
        while i < n
            invariant
                0 <= i <= n,
                old(self).wf(),
                old(self).skips_attributes(),
                self.moved_on(old(self)),
                s0 == old(self).rest(),
                self.rest() == s0.skip(self.read_since(old(self)) as int),
                skip_values_spec(s0, 2 * n as nat) == shifted(
                    skip_values_spec(self.rest(), (2 * (n - i)) as nat),
                    self.read_since(old(self)),
                ),
            decreases n - i,
        {
            proof {
                self.lemma_progress(old(self));
                Self::lemma_values_step(self.rest(), (2 * (n - i)) as nat);
            }
            let ghost cur = self.rest();
            self.skip_any()?;
            proof {
                self.lemma_progress(old(self));
                let k = skip_any_spec(cur)->Ok_0;
                assert(self.rest() =~= cur.skip(k as int));
                Self::lemma_values_step(self.rest(), (2 * (n - i) - 1) as nat);
            }
            let ghost cur2 = self.rest();
            self.skip_any()?;
            proof {
                self.lemma_progress(old(self));
                let k = skip_any_spec(cur2)->Ok_0;
                assert(self.rest() =~= cur2.skip(k as int));
            }
            i = i + 1;
        }
        Ok(())
    }

    /// Skips one value of any shape, with the attribute before it.
    #[verifier::rlimit(60)]
    pub fn skip_any(&mut self) -> (r: Result<()>)
        requires
            old(self).wf(),
            old(self).skips_attributes(),
        ensures
            final(self).moved_on(old(self)),
            match skip_any_spec(old(self).rest()) {
                Ok(n) => r is Ok && final(self).advanced(old(self), n),
                Err(e) => r == Err::<(), Error>(e),
            },
        decreases old(self).rest().len(), 4int,
    {
        let ghost s = self.rest();
        let peek = self.peek_skip_attribute()?;
        proof {
            self.lemma_progress(old(self));
        }
        let ghost a = self.read_since(old(self));
        let ghost t = self.rest();
        if peek == MAP || peek == ATTRIBUTE {
            let (len, last) = self.deserialize_map()?;
            proof {
                self.lemma_progress(old(self));
                assert(self.rest() =~= t.skip(self.read_since(old(self)) - a));
            }
            let r = self.skip_pairs(len);
            self.skip_attribute = last;
            return r;
        }
        if !(peek == ARRAY || peek == SET) {
            return self.skip_scalar(peek);
        }
        self.reader.read_u8();
        proof {
            self.lemma_progress(old(self));
            assert(self.rest() =~= t.skip(1));
        }
        let len = self.read_header()?;
        proof {
            self.lemma_progress(old(self));
            assert(self.rest() =~= t.skip(self.read_since(old(self)) - a));
        }
        self.skip_values(len)
    }

    /// Skips a frame that holds no other frame, whose marker `peek` is next;
    /// any other marker is refused.
    fn skip_scalar(&mut self, peek: u8) -> (r: Result<()>)
        requires
            old(self).wf(),
            old(self).rest().len() > 0,
            old(self).rest()[0] == peek,
            peek != ARRAY && peek != SET && peek != MAP && peek != ATTRIBUTE,
        ensures
            final(self).moved_on(old(self)),
            category_of(peek) is None ==> r == Err::<(), Error>(Error::ExpectedValue("type header")),
            category_of(peek) is Some ==> match scalar_skip_spec(old(self).rest()) {
                Ok(n) => r is Ok && final(self).advanced(old(self), n),
                Err(e) => r == Err::<(), Error>(e),
            },
    {
        reveal(scalar_skip_spec);
        let ghost t = self.rest();
        let is_text = peek == SIMPLE_STRING || peek == SIMPLE_ERROR || peek == BLOB_STRING || peek
            == BLOB_ERROR || peek == VERBATIM_STRING;
        if !(is_text || peek == BOOLEAN || peek == NUMBER || peek == DOUBLE) {
            return Err(Error::expected_value("type header"));
        }
        self.reader.read_u8();
        proof {
            self.lemma_progress(old(self));
            assert(self.rest() =~= t.skip(1));
        }
        if is_text {
            let bytes = if peek == SIMPLE_STRING || peek == SIMPLE_ERROR {
                self.parse_simple_string()?
            } else {
                self.parse_blob_string()?
            };
            match str_from_utf8(bytes) {
                Ok(_) => Ok(()),
                Err(n) => Err(Error::utf8(n)),
            }
        } else if peek == BOOLEAN {
            self.reader.read_bool()?;
            Ok(())
        } else if peek == NUMBER {
            self.read_signed()?;
            Ok(())
        } else {
            self.reader.read_double()?;
            proof {
                self.lemma_progress(old(self));
                assert(self.rest() =~= t.skip(1).skip(double_spec(t.skip(1))->Ok_0.2 as int));
            }
            self.reader.read_crlf()?;
            Ok(())
        }
    }

    /// Reads the body of a number frame, after its marker.
    fn read_signed(&mut self) -> (r: Result<i64>)
        requires
            old(self).wf(),
        ensures
            final(self).moved_on(old(self)),
            match signed_spec(old(self).rest()) {
                Ok((v, n)) => r == Ok::<i64, Error>(v as i64) && final(self).advanced(old(self), n),
                Err(e) => r == Err::<i64, Error>(e),
            },
    {
        let ghost s = self.rest();
        match self.reader.peek_u8() {
            None => Err(Error::eof()),
            Some(b) => {
                if b == MINUS {
                    self.reader.read_u8();
                    proof {
                        self.lemma_progress(old(self));
                    }
                    let num = self.reader.read_unsigned(i64::MAX as u64)?;
                    proof {
                        self.lemma_progress(old(self));
                        assert(self.rest() =~= s.skip(self.read_since(old(self)) as int));
                    }
                    self.reader.read_crlf()?;
                    proof {
                        self.lemma_progress(old(self));
                    }
                    Ok(-(num as i64))
                } else if DIGIT_ZERO <= b && b <= DIGIT_NINE {
                    let num = self.reader.read_unsigned(i64::MAX as u64)?;
                    proof {
                        self.lemma_progress(old(self));
                    }
                    self.reader.read_crlf()?;
                    proof {
                        self.lemma_progress(old(self));
                    }
                    Ok(num as i64)
                } else {
                    Err(Error::expected_value("number"))
                }
            },
        }
    }

    /// Reads the body of a number frame as unsigned, after its marker.
    fn read_unsigned_body(&mut self) -> (r: Result<u64>)
        requires
            old(self).wf(),
        ensures
            final(self).moved_on(old(self)),
            match unsigned_body_spec(old(self).rest()) {
                Ok((v, n)) => r == Ok::<u64, Error>(v as u64) && final(self).advanced(old(self), n),
                Err(e) => r == Err::<u64, Error>(e),
            },
    {
        match self.reader.peek_u8() {
            None => Err(Error::eof()),
            Some(b) => {
                if b == MINUS {
                    Err(Error::unexpected_value("signed"))
                } else if DIGIT_ZERO <= b && b <= DIGIT_NINE {
                    let num = self.reader.read_unsigned(u64::MAX)?;
                    proof {
                        self.lemma_progress(old(self));
                    }
                    self.reader.read_crlf()?;
                    proof {
                        self.lemma_progress(old(self));
                    }
                    Ok(num)
                } else {
                    Err(Error::expected_value("number"))
                }
            },
        }
    }

    /// Reads a boolean frame.
    pub fn deserialize_bool(&mut self) -> (r: Result<bool>)
        requires
            old(self).wf(),
        ensures
            peek_spec(old(self).rest(), old(self).skips_attributes()) is Ok && !(old(self).rest()[attributes_len(old(self).rest(), old(self).skips_attributes()) as int] == BOOLEAN) ==> final(self).advanced(old(self), attributes_len(old(self).rest(), old(self).skips_attributes())),
            final(self).moved_on(old(self)),
            match de_bool_spec(old(self).rest(), old(self).skips_attributes()) {
                Ok((v, n)) => r == Ok::<bool, Error>(v) && final(self).advanced(old(self), n),
                Err(e) => r == Err::<bool, Error>(e),
            },
    {
        let ghost s = self.rest();
        let peek = self.peek_skip_attribute()?;
        proof {
            self.lemma_progress(old(self));
        }
        let ghost t = self.rest();
        if peek == BOOLEAN {
            self.reader.read_u8();
            proof {
                self.lemma_progress(old(self));
                assert(self.rest() =~= t.skip(1));
            }
            let v = self.reader.read_bool()?;
            proof {
                self.lemma_progress(old(self));
            }
            Ok(v)
        } else {
            Err(Error::expected_marker("bool"))
        }
    }

    /// Reads a number frame as a signed 64-bit integer.
    pub fn deserialize_i64(&mut self) -> (r: Result<i64>)
        requires
            old(self).wf(),
        ensures
            peek_spec(old(self).rest(), old(self).skips_attributes()) is Ok && !(old(self).rest()[attributes_len(old(self).rest(), old(self).skips_attributes()) as int] == NUMBER) ==> final(self).advanced(old(self), attributes_len(old(self).rest(), old(self).skips_attributes())),
            final(self).moved_on(old(self)),
            match de_i64_spec(old(self).rest(), old(self).skips_attributes()) {
                Ok((v, n)) => r == Ok::<i64, Error>(v as i64) && final(self).advanced(old(self), n),
                Err(e) => r == Err::<i64, Error>(e),
            },
    {
        let peek = self.peek_skip_attribute()?;
        proof {
            self.lemma_progress(old(self));
        }
        let ghost t = self.rest();
        if peek == NUMBER {
            self.reader.read_u8();
            proof {
                self.lemma_progress(old(self));
                assert(self.rest() =~= t.skip(1));
            }
            let v = self.read_signed()?;
            proof {
                self.lemma_progress(old(self));
            }
            Ok(v)
        } else {
            Err(Error::expected_marker("number"))
        }
    }

    /// Reads a number frame as an unsigned 64-bit integer.
    pub fn deserialize_u64(&mut self) -> (r: Result<u64>)
        requires
            old(self).wf(),
        ensures
            peek_spec(old(self).rest(), old(self).skips_attributes()) is Ok && !(old(self).rest()[attributes_len(old(self).rest(), old(self).skips_attributes()) as int] == NUMBER) ==> final(self).advanced(old(self), attributes_len(old(self).rest(), old(self).skips_attributes())),
            final(self).moved_on(old(self)),
            match de_u64_spec(old(self).rest(), old(self).skips_attributes()) {
                Ok((v, n)) => r == Ok::<u64, Error>(v as u64) && final(self).advanced(old(self), n),
                Err(e) => r == Err::<u64, Error>(e),
            },
    {
        let peek = self.peek_skip_attribute()?;
        proof {
            self.lemma_progress(old(self));
        }
        let ghost t = self.rest();
        if peek == NUMBER {
            self.reader.read_u8();
            proof {
                self.lemma_progress(old(self));
                assert(self.rest() =~= t.skip(1));
            }
            let v = self.read_unsigned_body()?;
            proof {
                self.lemma_progress(old(self));
            }
            Ok(v)
        } else {
            Err(Error::expected_marker("number"))
        }
    }

    /// Reads a number or double frame as a number for a float.
    #[verifier::rlimit(60)]
    pub fn deserialize_f64(&mut self) -> (r: Result<Number<'de>>)
        requires
            old(self).wf(),
        ensures
            peek_spec(old(self).rest(), old(self).skips_attributes()) is Ok && !(old(self).rest()[attributes_len(old(self).rest(), old(self).skips_attributes()) as int] == NUMBER || old(self).rest()[attributes_len(old(self).rest(), old(self).skips_attributes()) as int] == DOUBLE) ==> final(self).advanced(old(self), attributes_len(old(self).rest(), old(self).skips_attributes())),
            final(self).moved_on(old(self)),
            match de_f64_spec(old(self).rest(), old(self).skips_attributes()) {
                Ok((v, n)) => r is Ok && r->Ok_0@ == v && final(self).advanced(old(self), n),
                Err(e) => r == Err::<Number, Error>(e),
            },
    {
        let peek = self.peek_skip_attribute()?;
        proof {
            self.lemma_progress(old(self));
        }
        let ghost t = self.rest();
        if peek == NUMBER {
            self.reader.read_u8();
            proof {
                self.lemma_progress(old(self));
                assert(self.rest() =~= t.skip(1));
            }
            let v = self.read_signed()?;
            proof {
                self.lemma_progress(old(self));
            }
            Ok(Number::Integer(v))
        } else if peek == DOUBLE {
            self.reader.read_u8();
            proof {
                self.lemma_progress(old(self));
                assert(self.rest() =~= t.skip(1));
            }
            let v = self.reader.read_double()?;
            proof {
                self.lemma_progress(old(self));
                assert(self.rest() =~= t.skip(1).skip(double_spec(t.skip(1))->Ok_0.2 as int));
            }
            self.reader.read_crlf()?;
            proof {
                self.lemma_progress(old(self));
            }
            Ok(v)
        } else {
            Err(Error::expected_marker("number|double"))
        }
    }

    /// Reads the payload of any of the five text frames, as bytes.
    pub fn deserialize_bytes(&mut self) -> (r: Result<&'de [u8]>)
        requires
            old(self).wf(),
        ensures
            peek_spec(old(self).rest(), old(self).skips_attributes()) is Ok && !(is_text_marker(old(self).rest()[attributes_len(old(self).rest(), old(self).skips_attributes()) as int])) ==> final(self).advanced(old(self), attributes_len(old(self).rest(), old(self).skips_attributes())),
            final(self).moved_on(old(self)),
            match text_spec(old(self).rest(), old(self).skips_attributes()) {
                Ok((p, n)) => r is Ok && r->Ok_0@ == p && final(self).advanced(old(self), n),
                Err(e) => r == Err::<&[u8], Error>(e),
            },
    {
        let peek = self.peek_skip_attribute()?;
        proof {
            self.lemma_progress(old(self));
        }
        let ghost t = self.rest();
        if peek == SIMPLE_STRING || peek == SIMPLE_ERROR {
            self.reader.read_u8();
            proof {
                self.lemma_progress(old(self));
                assert(self.rest() =~= t.skip(1));
            }
            let p = self.parse_simple_string()?;
            proof {
                self.lemma_progress(old(self));
            }
            Ok(p)
        } else if peek == BLOB_STRING || peek == BLOB_ERROR || peek == VERBATIM_STRING {
            self.reader.read_u8();
            proof {
                self.lemma_progress(old(self));
                assert(self.rest() =~= t.skip(1));
            }
            let p = self.parse_blob_string()?;
            proof {
                self.lemma_progress(old(self));
            }
            Ok(p)
        } else {
            Err(Error::expected_marker("string|error"))
        }
    }

    /// Reads the text of any of the five text frames; it must be UTF-8.
    pub fn deserialize_str(&mut self) -> (r: Result<&'de str>)
        requires
            old(self).wf(),
        ensures
            peek_spec(old(self).rest(), old(self).skips_attributes()) is Ok && !(is_text_marker(old(self).rest()[attributes_len(old(self).rest(), old(self).skips_attributes()) as int])) ==> final(self).advanced(old(self), attributes_len(old(self).rest(), old(self).skips_attributes())),
            final(self).moved_on(old(self)),
            match str_spec(old(self).rest(), old(self).skips_attributes()) {
                Ok((v, n)) => r is Ok && r->Ok_0@ == v && final(self).advanced(old(self), n),
                Err(e) => r == Err::<&str, Error>(e),
            },
    {
        let bytes = self.deserialize_bytes()?;
        match str_from_utf8(bytes) {
            Ok(s) => Ok(s),
            Err(n) => Err(Error::utf8(n)),
        }
    }

    /// Reads the header of an array or set frame: its count.
    pub fn deserialize_seq(&mut self) -> (r: Result<usize>)
        requires
            old(self).wf(),
        ensures
            peek_spec(old(self).rest(), old(self).skips_attributes()) is Ok && !(old(self).rest()[attributes_len(old(self).rest(), old(self).skips_attributes()) as int] == ARRAY || old(self).rest()[attributes_len(old(self).rest(), old(self).skips_attributes()) as int] == SET) ==> final(self).advanced(old(self), attributes_len(old(self).rest(), old(self).skips_attributes())),
            final(self).moved_on(old(self)),
            match de_seq_spec(old(self).rest(), old(self).skips_attributes()) {
                Ok((c, n)) => r == Ok::<usize, Error>(c as usize) && final(self).advanced(old(self), n)
                    && c <= usize::MAX && n >= 1,
                Err(e) => r == Err::<usize, Error>(e),
            },
    {
        let peek = self.peek_skip_attribute()?;
        proof {
            self.lemma_progress(old(self));
        }
        let ghost t = self.rest();
        if peek == ARRAY || peek == SET {
            self.reader.read_u8();
            proof {
                self.lemma_progress(old(self));
                assert(self.rest() =~= t.skip(1));
            }
            let len = self.read_header()?;
            proof {
                self.lemma_progress(old(self));
            }
            Ok(len)
        } else {
            Err(Error::expected_marker("array|set"))
        }
    }

    /// Reads the header of a map frame, or of an attribute frame taken as a
    /// map: its count of entries, and the setting to restore with
    /// [`Self::set_skip_attribute`] once the entries are read. Inside an
    /// attribute frame further attributes are skipped.
    pub fn deserialize_map(&mut self) -> (r: Result<(usize, bool)>)
        requires
            old(self).wf(),
        ensures
            peek_spec(old(self).rest(), old(self).skips_attributes()) is Ok && !(old(self).rest()[attributes_len(old(self).rest(), old(self).skips_attributes()) as int] == MAP || old(self).rest()[attributes_len(old(self).rest(), old(self).skips_attributes()) as int] == ATTRIBUTE) ==> final(self).advanced(old(self), attributes_len(old(self).rest(), old(self).skips_attributes())),
            final(self).reader().moved_on(&old(self).reader()),
            match de_map_spec(old(self).rest(), old(self).skips_attributes()) {
                Ok((c, f, n)) => r == Ok::<(usize, bool), Error>((c as usize, old(self).skips_attributes()))
                    && final(self).reader().advanced(&old(self).reader(), n)
                    && final(self).skips_attributes() == f && c <= usize::MAX && n >= 1 && (old(self).skips_attributes() ==> f),
                Err(e) => r == Err::<(usize, bool), Error>(e) && final(self).skips_attributes()
                    == old(self).skips_attributes(),
            },
        decreases old(self).rest().len(), 2int,
    {
        let peek = self.peek_skip_attribute()?;
        proof {
            self.lemma_progress(old(self));
        }
        let ghost t = self.rest();
        if peek == MAP || peek == ATTRIBUTE {
            self.reader.read_u8();
            proof {
                self.lemma_progress(old(self));
                assert(self.rest() =~= t.skip(1));
            }
            let len = self.read_header()?;
            proof {
                self.lemma_progress(old(self));
            }
            let last = self.skip_attribute;
            if peek == ATTRIBUTE {
                self.skip_attribute = true;
            }
            Ok((len, last))
        } else {
            Err(Error::expected_marker("map"))
        }
    }

    /// Reads the head of a tagged-union variant: a map frame of exactly one
    /// entry, whose key (the variant's name) and value come next. Returns
    /// the setting to restore with [`Self::set_skip_attribute`] afterwards.
    pub fn deserialize_enum(&mut self) -> (r: Result<bool>)
        requires
            old(self).wf(),
        ensures
            final(self).reader().moved_on(&old(self).reader()),
            match de_map_spec(old(self).rest(), old(self).skips_attributes()) {
                Ok((c, f, n)) => if c == 1 {
                    r == Ok::<bool, Error>(old(self).skips_attributes()) && final(self).reader().advanced(
                        &old(self).reader(),
                        n,
                    ) && final(self).skips_attributes() == f
                } else {
                    r == Err::<bool, Error>(Error::ExpectedValue("enum"))
                        && final(self).skips_attributes() == old(self).skips_attributes()
                },
                Err(e) => r == Err::<bool, Error>(e) && final(self).skips_attributes() == old(self).skips_attributes(),
            },
    {
        let (len, last) = self.deserialize_map()?;
        if len != 1 {
            self.skip_attribute = last;
            return Err(Error::expected_value("enum"));
        }
        Ok(last)
    }

    /// Reads an optional value: a null frame is consumed and gives `false`;
    /// any other frame stays unread and gives `true`.
    pub fn deserialize_option(&mut self) -> (r: Result<bool>)
        requires
            old(self).wf(),
        ensures
            final(self).moved_on(old(self)),
            match de_option_spec(old(self).rest(), old(self).skips_attributes()) {
                Ok((v, n)) => r == Ok::<bool, Error>(v) && final(self).advanced(old(self), n),
                Err(e) => r == Err::<bool, Error>(e),
            },
    {
        let peek = self.peek_skip_attribute()?;
        proof {
            self.lemma_progress(old(self));
        }
        let ghost t = self.rest();
        if peek == NULL {
            self.reader.read_u8();
            proof {
                self.lemma_progress(old(self));
                assert(self.rest() =~= t.skip(1));
            }
            self.reader.read_crlf()?;
            proof {
                self.lemma_progress(old(self));
            }
            Ok(false)
        } else {
            Ok(true)
        }
    }

    /// Reads a null frame.
    pub fn deserialize_unit(&mut self) -> (r: Result<()>)
        requires
            old(self).wf(),
        ensures
            peek_spec(old(self).rest(), old(self).skips_attributes()) is Ok && !(old(self).rest()[attributes_len(old(self).rest(), old(self).skips_attributes()) as int] == NULL) ==> final(self).advanced(old(self), attributes_len(old(self).rest(), old(self).skips_attributes())),
            final(self).moved_on(old(self)),
            match de_unit_spec(old(self).rest(), old(self).skips_attributes()) {
                Ok(n) => r is Ok && final(self).advanced(old(self), n),
                Err(e) => r == Err::<(), Error>(e),
            },
    {
        let peek = self.peek_skip_attribute()?;
        proof {
            self.lemma_progress(old(self));
        }
        let ghost t = self.rest();
        if peek == NULL {
            self.reader.read_u8();
            proof {
                self.lemma_progress(old(self));
                assert(self.rest() =~= t.skip(1));
            }
            self.reader.read_crlf()?;
            proof {
                self.lemma_progress(old(self));
            }
            Ok(())
        } else {
            Err(Error::expected_marker("null"))
        }
    }

    /// The category of the next value, for a caller that takes any value.
    /// Only the attributes before it are consumed.
    pub fn deserialize_any(&mut self) -> (r: Result<Category>)
        requires
            old(self).wf(),
        ensures
            final(self).moved_on(old(self)),
            match de_any_spec(old(self).rest(), old(self).skips_attributes()) {
                Ok((c, n)) => r == Ok::<Category, Error>(c) && final(self).advanced(old(self), n),
                Err(e) => r == Err::<Category, Error>(e),
            },
    {
        let peek = self.peek_skip_attribute()?;
        if peek == SIMPLE_STRING || peek == SIMPLE_ERROR || peek == BLOB_STRING || peek
            == BLOB_ERROR || peek == VERBATIM_STRING {
            Ok(Category::Str)
        } else if peek == BOOLEAN {
            Ok(Category::Bool)
        } else if peek == NUMBER {
            Ok(Category::Signed)
        } else if peek == DOUBLE {
            Ok(Category::Float)
        } else if peek == ARRAY || peek == SET {
            Ok(Category::Sequence)
        } else if peek == MAP || peek == ATTRIBUTE {
            Ok(Category::Mapping)
        } else {
            Err(Error::expected_value("type header"))
        }
    }

    /// Reads the header of a push frame: its count.
    pub fn deserialize_push(&mut self) -> (r: Result<usize>)
        requires
            old(self).wf(),
        ensures
            peek_spec(old(self).rest(), old(self).skips_attributes()) is Ok && !(old(self).rest()[attributes_len(old(self).rest(), old(self).skips_attributes()) as int] == PUSH) ==> final(self).advanced(old(self), attributes_len(old(self).rest(), old(self).skips_attributes())),
            final(self).moved_on(old(self)),
            match de_push_spec(old(self).rest(), old(self).skips_attributes()) {
                Ok((c, n)) => r == Ok::<usize, Error>(c as usize) && final(self).advanced(old(self), n)
                    && c <= usize::MAX,
                Err(e) => r == Err::<usize, Error>(e),
            },
    {
        let peek = self.peek_skip_attribute()?;
        proof {
            self.lemma_progress(old(self));
        }
        let ghost t = self.rest();
        if peek == PUSH {
            self.reader.read_u8();
            proof {
                self.lemma_progress(old(self));
                assert(self.rest() =~= t.skip(1));
            }
            let len = self.read_header()?;
            proof {
                self.lemma_progress(old(self));
            }
            Ok(len)
        } else {
            Err(Error::expected_marker("push"))
        }
    }

    /// Reads a string frame of exactly the given kind, after the
    /// attributes before it.
    pub fn deserialize_tagged(&mut self, kind: StringKind) -> (r: Result<&'de str>)
        requires
            old(self).wf(),
        ensures
            peek_spec(old(self).rest(), old(self).skips_attributes()) is Ok && old(self).rest()[attributes_len(old(self).rest(), old(self).skips_attributes()) as int] != kind.marker() ==> final(self).advanced(old(self), attributes_len(old(self).rest(), old(self).skips_attributes())),
            final(self).moved_on(old(self)),
            match tagged_spec(old(self).rest(), old(self).skips_attributes(), kind) {
                Ok((v, n)) => r is Ok && r->Ok_0@ == v && final(self).advanced(old(self), n),
                Err(e) => r == Err::<&str, Error>(e),
            },
    {
        let peek = self.peek_skip_attribute()?;
        proof {
            self.lemma_progress(old(self));
        }
        let ghost s = self.rest();
        let (marker, blob, name) = match kind {
            StringKind::SimpleString => (SIMPLE_STRING, false, "simple string"),
            StringKind::BlobString => (BLOB_STRING, true, "blob string"),
            StringKind::SimpleError => (SIMPLE_ERROR, false, "simple error"),
            StringKind::BlobError => (BLOB_ERROR, true, "blob error"),
        };
        if peek != marker {
            return Err(Error::expected_marker(name));
        }
        self.reader.read_u8();
        proof {
            self.lemma_progress(old(self));
            assert(self.rest() =~= s.skip(1));
        }
        let bytes = if blob {
            self.parse_blob_string()?
        } else {
            self.parse_simple_string()?
        };
        proof {
            self.lemma_progress(old(self));
        }
        match str_from_utf8(bytes) {
            Ok(s) => Ok(s),
            Err(n) => Err(Error::utf8(n)),
        }
    }

    /// Starts reading a value with its attribute: the attribute frame must
    /// come next. Nothing is consumed; attributes stop being skipped, so
    /// that the attribute frame can be read as a map. Returns the setting
    /// to restore with [`Self::set_skip_attribute`] once the value is read.
    pub fn begin_with_attribute(&mut self) -> (r: Result<bool>)
        requires
            old(self).wf(),
        ensures
            final(self).reader() == old(self).reader(),
            old(self).rest().len() == 0 ==> r == Err::<bool, Error>(Error::EOF)
                && final(self).skips_attributes() == old(self).skips_attributes(),
            old(self).rest().len() > 0 && old(self).rest()[0] != ATTRIBUTE ==> r == Err::<
                bool,
                Error,
            >(Error::ExpectedMarker("attribute")) && final(self).skips_attributes() == old(self).skips_attributes(),
            old(self).rest().len() > 0 && old(self).rest()[0] == ATTRIBUTE ==> r == Ok::<
                bool,
                Error,
            >(old(self).skips_attributes()) && !final(self).skips_attributes(),
    {
        let peek = match self.reader.peek_u8() {
            Some(b) => b,
            None => return Err(Error::eof()),
        };
        if peek != ATTRIBUTE {
            return Err(Error::expected_marker("attribute"));
        }
        let last = self.skip_attribute;
        self.skip_attribute = false;
        Ok(last)
    }
}

} // verus!
