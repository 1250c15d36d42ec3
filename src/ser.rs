//! The encoder driver: writes RESP3 frames into a byte sink.
use vstd::prelude::*;
use vstd::utf8::{
    char_is_scalar, encode_scalar, encode_utf8, has_width_3_encoding, has_width_4_encoding,
};

use crate::de::StringKind;
use crate::types::{tag_of, tag_spec, Tag};
use crate::error::{Error, Result};
use crate::wire::{
    crlf, decimal_digits, signed_digits, ARRAY, ATTRIBUTE, BLOB_ERROR, BLOB_STRING, BOOLEAN, CR,
    DIGIT_ZERO, DOUBLE, FALSE_BYTE, LF, MAP, MINUS, NULL, NUMBER, PUSH, SIMPLE_ERROR,
    SIMPLE_STRING, STREAM_END, TRUE_BYTE,
};

verus! {

/// The UTF-8 encoding of one character.
fn char_to_utf8(c: char) -> (r: Vec<u8>)
    ensures
        r@ == encode_utf8(seq![c]),
{
    proof {
        char_is_scalar(c);
        assert(seq![c].drop_first() =~= Seq::<char>::empty());
    }
    let v = c as u32;
    let ghost e = encode_utf8(seq![c]);
    proof {
        reveal_with_fuel(encode_utf8, 2);
        assert(seq![c][0] == c);
        assert(e =~= encode_scalar(v));
    }
    if v <= 0x7F {
        let r = vec![#[verifier::truncate] ((v & 0x7F) as u8)];
        assert(r@ =~= e);
        r
    } else if v <= 0x7FF {
        let r = vec![
            0xC0 | #[verifier::truncate] (((v >> 6) & 0x1F) as u8),
            0x80 | #[verifier::truncate] ((v & 0x3F) as u8),
        ];
        assert(r@ =~= e);
        r
    } else if v <= 0xFFFF {
        assert(has_width_3_encoding(v));
        let r = vec![
            0xE0 | #[verifier::truncate] (((v >> 12) & 0x0F) as u8),
            0x80 | #[verifier::truncate] (((v >> 6) & 0x3F) as u8),
            0x80 | #[verifier::truncate] ((v & 0x3F) as u8),
        ];
        assert(r@ =~= e);
        r
    } else {
        assert(has_width_4_encoding(v));
        let r = vec![
            0xF0 | #[verifier::truncate] (((v >> 18) & 0x7) as u8),
            0x80 | #[verifier::truncate] (((v >> 12) & 0x3F) as u8),
            0x80 | #[verifier::truncate] (((v >> 6) & 0x3F) as u8),
            0x80 | #[verifier::truncate] ((v & 0x3F) as u8),
        ];
        assert(r@ =~= e);
        r
    }
}

/// The question mark that stands for the count of a sequence or map whose
/// length is not known in advance.
pub const UNKNOWN_LENGTH: u8 = 63;

/// A header: a marker, a count and CR LF.
pub open spec fn header(marker: u8, n: nat) -> Seq<u8> {
    seq![marker] + decimal_digits(n) + crlf()
}

/// A frame of a marker, a line of text and CR LF.
pub open spec fn line(marker: u8, text: Seq<u8>) -> Seq<u8> {
    seq![marker] + text + crlf()
}

/// A length-prefixed frame.
pub open spec fn blob(marker: u8, payload: Seq<u8>) -> Seq<u8> {
    header(marker, payload.len()) + payload + crlf()
}

pub open spec fn null_frame() -> Seq<u8> {
    seq![NULL] + crlf()
}

pub open spec fn bool_frame(v: bool) -> Seq<u8> {
    seq![BOOLEAN, if v { TRUE_BYTE } else { FALSE_BYTE }] + crlf()
}

pub open spec fn i64_frame(v: int) -> Seq<u8> {
    line(NUMBER, signed_digits(v))
}

/// The frame of a string of the given kind.
pub open spec fn tagged_frame(kind: StringKind, text: Seq<u8>) -> Seq<u8> {
    if kind.is_blob() {
        blob(kind.marker(), text)
    } else {
        line(kind.marker(), text)
    }
}

/// The head of a tagged-union variant: a map of one entry whose key is the
/// variant's name.
pub open spec fn variant_head(variant: Seq<char>) -> Seq<u8> {
    header(MAP, 1) + line(SIMPLE_STRING, encode_utf8(variant))
}

/// What serializing a newtype wrapper turns into, by the wrapper's name.
#[derive(PartialEq, Eq, Structural, Clone, Copy, Debug)]
pub enum NewtypeMode {
    /// Only a string is accepted, written as a frame of this kind.
    Restricted(StringKind),
    /// Only a tuple or record of known length is accepted, written as a
    /// push frame.
    Push,
    /// The wrapper is transparent.
    Transparent,
}

pub open spec fn newtype_mode_spec(tag: Tag) -> NewtypeMode {
    match tag {
        Tag::Str(kind) => NewtypeMode::Restricted(kind),
        Tag::Push => NewtypeMode::Push,
        _ => NewtypeMode::Transparent,
    }
}

/// One step of counting the children of a sequence or map: the count still
/// owed after one more child, or `None` where no more child is owed. An
/// unknown length (`None`) takes any number of children.
pub open spec fn count_step(remaining: Option<nat>) -> Option<Option<nat>> {
    match remaining {
        None => Some(None),
        Some(m) => if m == 0 {
            None
        } else {
            Some(Some((m - 1) as nat))
        },
    }
}

/// Counting `k` children from `remaining`; `None` where one of them was
/// refused.
pub open spec fn count_run(remaining: Option<nat>, k: nat) -> Option<Option<nat>>
    decreases k,
{
    if k == 0 {
        Some(remaining)
    } else {
        match count_run(remaining, (k - 1) as nat) {
            Some(rem) => count_step(rem),
            None => None,
        }
    }
}

/// Whether a sequence or map may end: nothing is owed any more.
pub open spec fn may_end(remaining: Option<nat>) -> bool {
    remaining is None || remaining == Some(0nat)
}

/// A sequence or map declared with `n` children is accepted with exactly
/// `n` children: with fewer it may not end, and one more is refused.
pub proof fn lemma_cardinality(n: nat, k: nat)
    ensures
        (count_run(Some(n), k) is Some && may_end(count_run(Some(n), k)->Some_0)) <==> k == n,
        k <= n ==> count_run(Some(n), k) == Some(Some((n - k) as nat)),
        k > n ==> count_run(Some(n), k) is None,
    decreases k,
{
    if k > 0 {
        lemma_cardinality(n, (k - 1) as nat);
    }
}

/// A RESP3 serializer, writing into a byte sink.
pub struct Serializer {
    writer: Vec<u8>,
}

/// Creates a [`Serializer`] that appends to the given bytes.
pub fn from_write(w: Vec<u8>) -> (r: Serializer)
    ensures
        r.output() == w@,
{
    Serializer { writer: w }
}

fn append(out: &mut Vec<u8>, b: &[u8])
    ensures
        final(out)@ == old(out)@ + b@,
{
    let mut i: usize = 0;
    while i < b.len()
        invariant
            0 <= i <= b@.len(),
            out@ == old(out)@ + b@.take(i as int),
        decreases b@.len() - i,
    {
        assert(b@.take(i + 1) =~= b@.take(i as int).push(b@[i as int]));
        out.push(b[i]);
        i = i + 1;
    }
    assert(b@.take(i as int) =~= b@);
}

fn append_decimal(out: &mut Vec<u8>, v: u64)
    ensures
        final(out)@ == old(out)@ + decimal_digits(v as nat),
    decreases v,
{
    if v >= 10 {
        append_decimal(out, v / 10);
    }
    out.push(DIGIT_ZERO + (v % 10) as u8);
    proof {
        if v >= 10 {
            assert(old(out)@ + decimal_digits(v as nat) =~= old(out)@ + decimal_digits(
                (v / 10) as nat,
            ) + seq![(DIGIT_ZERO + v % 10) as u8]);
        } else {
            assert(decimal_digits(v as nat) =~= seq![(DIGIT_ZERO + v % 10) as u8]);
        }
    }
}

impl Serializer {
    /// The bytes written so far.
    pub closed spec fn output(&self) -> Seq<u8> {
        self.writer@
    }

    /// `self` has written `bytes` after what `before` had written.
    pub open spec fn wrote(&self, before: &Self, bytes: Seq<u8>) -> bool {
        self.output() == before.output() + bytes
    }

    /// The bytes written so far.
    pub fn into_inner(self) -> (r: Vec<u8>)
        ensures
            r@ == self.output(),
    {
        self.writer
    }

    /// The bytes written so far.
    pub fn get_ref(&self) -> (r: &Vec<u8>)
        ensures
            r@ == self.output(),
    {
        &self.writer
    }

    fn put(&mut self, b: u8)
        ensures
            final(self).wrote(old(self), seq![b]),
    {
        self.writer.push(b);
        assert(self.output() =~= old(self).output() + seq![b]);
    }

    fn put_crlf(&mut self)
        ensures
            final(self).wrote(old(self), crlf()),
    {
        self.writer.push(CR);
        self.writer.push(LF);
        assert(self.output() =~= old(self).output() + crlf());
    }

    fn put_header(&mut self, marker: u8, n: u64)
        ensures
            final(self).wrote(old(self), header(marker, n as nat)),
    {
        self.writer.push(marker);
        append_decimal(&mut self.writer, n);
        self.put_crlf();
        assert(self.output() =~= old(self).output() + header(marker, n as nat));
    }

    fn put_line(&mut self, marker: u8, text: &[u8])
        ensures
            final(self).wrote(old(self), line(marker, text@)),
    {
        self.writer.push(marker);
        append(&mut self.writer, text);
        self.put_crlf();
        assert(self.output() =~= old(self).output() + line(marker, text@));
    }

    fn put_blob(&mut self, marker: u8, payload: &[u8])
        ensures
            final(self).wrote(old(self), blob(marker, payload@)),
    {
        self.put_header(marker, payload.len() as u64);
        append(&mut self.writer, payload);
        self.put_crlf();
        assert(self.output() =~= old(self).output() + blob(marker, payload@));
    }

    pub fn write_i64(&mut self, v: i64) -> (r: Result<()>)
        ensures
            r is Ok,
            final(self).wrote(old(self), i64_frame(v as int)),
    {
        self.writer.push(NUMBER);
        if v < 0 {
            self.writer.push(MINUS);
            let m: u64 = (-(v as i128)) as u64;
            append_decimal(&mut self.writer, m);
        } else {
            append_decimal(&mut self.writer, v as u64);
        }
        self.put_crlf();
        assert(self.output() =~= old(self).output() + i64_frame(v as int));
        Ok(())
    }

    pub fn write_u64(&mut self, v: u64) -> (r: Result<()>)
        ensures
            r is Ok,
            final(self).wrote(old(self), line(NUMBER, decimal_digits(v as nat))),
    {
        self.writer.push(NUMBER);
        append_decimal(&mut self.writer, v);
        self.put_crlf();
        assert(self.output() =~= old(self).output() + line(NUMBER, decimal_digits(v as nat)));
        Ok(())
    }

    pub fn write_bool(&mut self, v: bool) -> (r: Result<()>)
        ensures
            r is Ok,
            final(self).wrote(old(self), bool_frame(v)),
    {
        self.writer.push(BOOLEAN);
        if v {
            self.writer.push(TRUE_BYTE);
        } else {
            self.writer.push(FALSE_BYTE);
        }
        self.put_crlf();
        assert(self.output() =~= old(self).output() + bool_frame(v));
        Ok(())
    }

    /// Writes a positive or negative infinity as a double frame.
    pub fn write_infinity(&mut self, negative: bool) -> (r: Result<()>)
        ensures
            r is Ok,
            final(self).wrote(
                old(self),
                line(DOUBLE, if negative { seq![MINUS, 105u8, 110u8, 102u8] } else { seq![105u8, 110u8, 102u8] }),
            ),
    {
        let inf: [u8; 3] = [105, 110, 102];
        let neg_inf: [u8; 4] = [MINUS, 105, 110, 102];
        if negative {
            self.put_line(DOUBLE, &neg_inf);
            assert(neg_inf@ =~= seq![MINUS, 105u8, 110u8, 102u8]);
        } else {
            self.put_line(DOUBLE, &inf);
            assert(inf@ =~= seq![105u8, 110u8, 102u8]);
        }
        Ok(())
    }

    /// Writes the decimal text of a finite double as a double frame.
    pub fn write_double(&mut self, text: &str) -> (r: Result<()>)
        ensures
            r is Ok,
            final(self).wrote(old(self), line(DOUBLE, encode_utf8(text@))),
    {
        self.put_line(DOUBLE, text.as_bytes());
        Ok(())
    }

    pub fn write_simple_string_char(&mut self, c: char) -> (r: Result<()>)
        ensures
            r is Ok,
            final(self).wrote(old(self), line(SIMPLE_STRING, encode_utf8(seq![c]))),
    {
        let bytes = char_to_utf8(c);
        self.put_line(SIMPLE_STRING, bytes.as_slice());
        Ok(())
    }

    pub fn write_simple_string(&mut self, s: &str) -> (r: Result<()>)
        ensures
            r is Ok,
            final(self).wrote(old(self), line(SIMPLE_STRING, encode_utf8(s@))),
    {
        self.put_line(SIMPLE_STRING, s.as_bytes());
        Ok(())
    }

    pub fn write_blob_string(&mut self, s: &str) -> (r: Result<()>)
        ensures
            r is Ok,
            final(self).wrote(old(self), blob(BLOB_STRING, encode_utf8(s@))),
    {
        self.put_blob(BLOB_STRING, s.as_bytes());
        Ok(())
    }

    pub fn write_simple_error(&mut self, s: &str) -> (r: Result<()>)
        ensures
            r is Ok,
            final(self).wrote(old(self), line(SIMPLE_ERROR, encode_utf8(s@))),
    {
        self.put_line(SIMPLE_ERROR, s.as_bytes());
        Ok(())
    }

    pub fn write_blob_error(&mut self, s: &str) -> (r: Result<()>)
        ensures
            r is Ok,
            final(self).wrote(old(self), blob(BLOB_ERROR, encode_utf8(s@))),
    {
        self.put_blob(BLOB_ERROR, s.as_bytes());
        Ok(())
    }

    pub fn write_null(&mut self) -> (r: Result<()>)
        ensures
            r is Ok,
            final(self).wrote(old(self), null_frame()),
    {
        self.put(NULL);
        self.put_crlf();
        assert(self.output() =~= old(self).output() + null_frame());
        Ok(())
    }

    pub fn write_push_len_marker(&mut self, len: usize) -> (r: Result<()>)
        ensures
            r is Ok,
            final(self).wrote(old(self), header(PUSH, len as nat)),
    {
        self.put_header(PUSH, len as u64);
        Ok(())
    }

    pub fn write_array_len_marker(&mut self, len: usize) -> (r: Result<()>)
        ensures
            r is Ok,
            final(self).wrote(old(self), header(ARRAY, len as nat)),
    {
        self.put_header(ARRAY, len as u64);
        Ok(())
    }

    pub fn write_array_nolen_marker(&mut self) -> (r: Result<()>)
        ensures
            r is Ok,
            final(self).wrote(old(self), seq![ARRAY, UNKNOWN_LENGTH] + crlf()),
    {
        self.put(ARRAY);
        self.put(UNKNOWN_LENGTH);
        self.put_crlf();
        assert(self.output() =~= old(self).output() + (seq![ARRAY, UNKNOWN_LENGTH] + crlf()));
        Ok(())
    }

    pub fn write_map_len_marker(&mut self, len: usize) -> (r: Result<()>)
        ensures
            r is Ok,
            final(self).wrote(old(self), header(MAP, len as nat)),
    {
        self.put_header(MAP, len as u64);
        Ok(())
    }

    pub fn write_map_nolen_marker(&mut self) -> (r: Result<()>)
        ensures
            r is Ok,
            final(self).wrote(old(self), seq![MAP, UNKNOWN_LENGTH] + crlf()),
    {
        self.put(MAP);
        self.put(UNKNOWN_LENGTH);
        self.put_crlf();
        assert(self.output() =~= old(self).output() + (seq![MAP, UNKNOWN_LENGTH] + crlf()));
        Ok(())
    }

    /// Writes the header of an attribute frame with `len` entries.
    pub fn write_attribute_len_marker(&mut self, len: usize) -> (r: Result<()>)
        ensures
            r is Ok,
            final(self).wrote(old(self), header(ATTRIBUTE, len as nat)),
    {
        self.put_header(ATTRIBUTE, len as u64);
        Ok(())
    }

    /// Writes the end marker of a sequence or map of unknown length.
    pub fn write_end(&mut self) -> (r: Result<()>)
        ensures
            r is Ok,
            final(self).wrote(old(self), seq![STREAM_END] + crlf()),
    {
        self.put(STREAM_END);
        self.put_crlf();
        assert(self.output() =~= old(self).output() + (seq![STREAM_END] + crlf()));
        Ok(())
    }

    /// Writes a string as a frame of the given kind.
    pub fn serialize_tagged_str(&mut self, kind: StringKind, v: &str) -> (r: Result<()>)
        ensures
            r is Ok,
            final(self).wrote(old(self), tagged_frame(kind, encode_utf8(v@))),
    {
        match kind {
            StringKind::SimpleError => self.write_simple_error(v),
            StringKind::BlobError => self.write_blob_error(v),
            StringKind::SimpleString => self.write_simple_string(v),
            StringKind::BlobString => self.write_blob_string(v),
        }
    }
}

} // verus!

verus! {

/// Whether a sequence or map had its length declared.
pub enum SeqKind {
    /// Declared; holds how many children are still owed.
    KnownLength(usize),
    UnknownLength,
}

/// The state of a sequence, tuple, map or record being serialized: how many
/// children are still owed, whether record fields carry their names, and
/// whether the first child is an attribute.
pub struct SeqSerializer {
    kind: SeqKind,
    with_key: bool,
    attribute_first: bool,
}

impl SeqSerializer {
    /// How many children are still owed; `None` for an unknown length.
    pub closed spec fn remaining(&self) -> Option<nat> {
        match self.kind {
            SeqKind::KnownLength(n) => Some(n as nat),
            SeqKind::UnknownLength => None,
        }
    }

    pub closed spec fn keyed(&self) -> bool {
        self.with_key
    }

    pub closed spec fn attribute_next(&self) -> bool {
        self.attribute_first
    }

    pub fn known_length(len: usize) -> (r: Self)
        ensures
            r.remaining() == Some(len as nat),
            r.keyed(),
            !r.attribute_next(),
    {
        SeqSerializer { kind: SeqKind::KnownLength(len), with_key: true, attribute_first: false }
    }

    pub fn unknown_length() -> (r: Self)
        ensures
            r.remaining() is None,
            r.keyed(),
            !r.attribute_next(),
    {
        SeqSerializer { kind: SeqKind::UnknownLength, with_key: true, attribute_first: false }
    }

    /// The same, with record fields written without their names.
    pub fn without_key(self) -> (r: Self)
        ensures
            r.remaining() == self.remaining(),
            !r.keyed(),
            r.attribute_next() == self.attribute_next(),
    {
        SeqSerializer { with_key: false, ..self }
    }

    /// Whether record fields are written with their names.
    pub fn with_key(&self) -> (r: bool)
        ensures
            r == self.keyed(),
    {
        self.with_key
    }

    /// Counts one child (an element, a map key or a record field) before
    /// it is written. A child beyond the declared count is refused. Returns
    /// whether this child is the attribute of a value with an attribute.
    pub fn begin_element(&mut self) -> (r: Result<bool>)
        ensures
            count_step(old(self).remaining()) is None ==> r == Err::<bool, Error>(
                Error::UnexpectedValue("element"),
            ) && *final(self) == *old(self),
            count_step(old(self).remaining()) is Some ==> r == Ok::<bool, Error>(
                old(self).attribute_next(),
            ) && final(self).remaining() == count_step(old(self).remaining())->Some_0
                && final(self).keyed() == old(self).keyed() && !final(self).attribute_next(),
    {
        match self.kind {
            SeqKind::KnownLength(n) => {
                if n == 0 {
                    return Err(Error::unexpected_value("element"));
                }
                self.kind = SeqKind::KnownLength(n - 1);
            },
            SeqKind::UnknownLength => {},
        }
        let first = self.attribute_first;
        self.attribute_first = false;
        Ok(first)
    }

    /// Ends the sequence or map: writes the end marker where the length was
    /// not declared; refuses to end while children are still owed.
    pub fn end(self, se: &mut Serializer) -> (r: Result<()>)
        ensures
            self.remaining() is None ==> r is Ok && final(se).wrote(
                old(se),
                seq![STREAM_END] + crlf(),
            ),
            self.remaining() is Some ==> *final(se) == *old(se),
            self.remaining() == Some(0nat) ==> r is Ok,
            self.remaining() matches Some(m) && m > 0 ==> r == Err::<(), Error>(
                Error::ExpectedValue("element"),
            ),
            r is Ok <==> may_end(self.remaining()),
    {
        match self.kind {
            SeqKind::UnknownLength => se.write_end(),
            SeqKind::KnownLength(n) => {
                if n == 0 {
                    Ok(())
                } else {
                    Err(Error::expected_value("element"))
                }
            },
        }
    }
}

impl Serializer {
    /// What a newtype wrapper of the given name turns into.
    pub fn serialize_newtype_struct(name: &str) -> (r: NewtypeMode)
        ensures
            r == newtype_mode_spec(tag_spec(name@)),
    {
        match tag_of(name) {
            Tag::Str(kind) => NewtypeMode::Restricted(kind),
            Tag::Push => NewtypeMode::Push,
            _ => NewtypeMode::Transparent,
        }
    }

    /// Writes bytes as a blob string, whatever they hold.
    pub fn serialize_bytes(&mut self, v: &[u8]) -> (r: Result<()>)
        ensures
            r is Ok,
            final(self).wrote(old(self), blob(BLOB_STRING, v@)),
    {
        self.put_blob(BLOB_STRING, v);
        Ok(())
    }

    /// A unit variant: a map of one entry, from the variant's name to null.
    pub fn serialize_unit_variant(&mut self, variant: &str) -> (r: Result<()>)
        ensures
            r is Ok,
            final(self).wrote(old(self), variant_head(variant@) + null_frame()),
    {
        self.write_map_len_marker(1)?;
        self.write_simple_string(variant)?;
        self.write_null()?;
        assert(self.output() =~= old(self).output() + (variant_head(variant@) + null_frame()));
        Ok(())
    }

    /// The head of a newtype variant; its value comes next.
    pub fn serialize_newtype_variant(&mut self, variant: &str) -> (r: Result<()>)
        ensures
            r is Ok,
            final(self).wrote(old(self), variant_head(variant@)),
    {
        self.write_map_len_marker(1)?;
        self.write_simple_string(variant)?;
        assert(self.output() =~= old(self).output() + variant_head(variant@));
        Ok(())
    }

    /// The head of a tuple variant: its elements come next, as an array.
    pub fn serialize_tuple_variant(&mut self, variant: &str, len: usize) -> (r: Result<SeqSerializer>)
        ensures
            r is Ok,
            final(self).wrote(old(self), variant_head(variant@) + header(ARRAY, len as nat)),
            r->Ok_0.remaining() == Some(len as nat),
            r->Ok_0.keyed(),
            !r->Ok_0.attribute_next(),
    {
        self.write_map_len_marker(1)?;
        self.write_simple_string(variant)?;
        let r = self.serialize_seq(Some(len));
        assert(self.output() =~= old(self).output() + (variant_head(variant@) + header(ARRAY, len as nat)));
        r
    }

    /// The head of a struct variant: its fields come next, as a map.
    pub fn serialize_struct_variant(&mut self, variant: &str, len: usize) -> (r: Result<SeqSerializer>)
        ensures
            r is Ok,
            final(self).wrote(old(self), variant_head(variant@) + header(MAP, len as nat)),
            r->Ok_0.remaining() == Some(len as nat),
            r->Ok_0.keyed(),
            !r->Ok_0.attribute_next(),
    {
        self.write_map_len_marker(1)?;
        self.write_simple_string(variant)?;
        let r = self.serialize_map(Some(len));
        assert(self.output() =~= old(self).output() + (variant_head(variant@) + header(MAP, len as nat)));
        r
    }

    /// The header of a sequence, of known or unknown length.
    pub fn serialize_seq(&mut self, len: Option<usize>) -> (r: Result<SeqSerializer>)
        ensures
            r is Ok,
            r->Ok_0.keyed(),
            !r->Ok_0.attribute_next(),
            match len {
                Some(l) => final(self).wrote(old(self), header(ARRAY, l as nat))
                    && r->Ok_0.remaining() == Some(l as nat),
                None => final(self).wrote(old(self), seq![ARRAY, UNKNOWN_LENGTH] + crlf())
                    && r->Ok_0.remaining() is None,
            },
    {
        match len {
            Some(l) => {
                self.write_array_len_marker(l)?;
                Ok(SeqSerializer::known_length(l))
            },
            None => {
                self.write_array_nolen_marker()?;
                Ok(SeqSerializer::unknown_length())
            },
        }
    }

    /// The header of a tuple: an array of known length.
    pub fn serialize_tuple(&mut self, len: usize) -> (r: Result<SeqSerializer>)
        ensures
            r is Ok,
            final(self).wrote(old(self), header(ARRAY, len as nat)),
            r->Ok_0.remaining() == Some(len as nat),
            r->Ok_0.keyed(),
            !r->Ok_0.attribute_next(),
    {
        self.serialize_seq(Some(len))
    }

    /// The head of a tuple struct. A value with an attribute writes nothing
    /// here: its first field, the attribute, writes the attribute frame.
    pub fn serialize_tuple_struct(&mut self, name: &str, len: usize) -> (r: Result<SeqSerializer>)
        ensures
            r is Ok,
            r->Ok_0.keyed(),
            tag_spec(name@) == Tag::WithAttribute ==> *final(self) == *old(self)
                && r->Ok_0.remaining() == Some(2nat) && r->Ok_0.attribute_next(),
            tag_spec(name@) != Tag::WithAttribute ==> final(self).wrote(
                old(self),
                header(ARRAY, len as nat),
            ) && r->Ok_0.remaining() == Some(len as nat) && !r->Ok_0.attribute_next(),
    {
        match tag_of(name) {
            Tag::WithAttribute => Ok(
                SeqSerializer {
                    kind: SeqKind::KnownLength(2),
                    with_key: true,
                    attribute_first: true,
                },
            ),
            _ => self.serialize_seq(Some(len)),
        }
    }

    /// The header of a map, of known or unknown length.
    pub fn serialize_map(&mut self, len: Option<usize>) -> (r: Result<SeqSerializer>)
        ensures
            r is Ok,
            r->Ok_0.keyed(),
            !r->Ok_0.attribute_next(),
            match len {
                Some(l) => final(self).wrote(old(self), header(MAP, l as nat))
                    && r->Ok_0.remaining() == Some(l as nat),
                None => final(self).wrote(old(self), seq![MAP, UNKNOWN_LENGTH] + crlf())
                    && r->Ok_0.remaining() is None,
            },
    {
        match len {
            Some(l) => {
                self.write_map_len_marker(l)?;
                Ok(SeqSerializer::known_length(l))
            },
            None => {
                self.write_map_nolen_marker()?;
                Ok(SeqSerializer::unknown_length())
            },
        }
    }

    /// The header of a record: a map with one entry per field.
    pub fn serialize_struct(&mut self, len: usize) -> (r: Result<SeqSerializer>)
        ensures
            r is Ok,
            final(self).wrote(old(self), header(MAP, len as nat)),
            r->Ok_0.remaining() == Some(len as nat),
            r->Ok_0.keyed(),
            !r->Ok_0.attribute_next(),
    {
        self.serialize_map(Some(len))
    }

    /// The header of the attribute of a value with an attribute: an
    /// attribute frame with one entry per field or map entry.
    pub fn serialize_attribute(&mut self, len: usize) -> (r: Result<SeqSerializer>)
        ensures
            r is Ok,
            final(self).wrote(old(self), header(ATTRIBUTE, len as nat)),
            r->Ok_0.remaining() == Some(len as nat),
            r->Ok_0.keyed(),
            !r->Ok_0.attribute_next(),
    {
        self.write_attribute_len_marker(len)?;
        Ok(SeqSerializer::known_length(len))
    }

    /// The header of a push frame around a tuple or record; a length that
    /// is not known is refused. Record fields go without their names.
    pub fn serialize_push(&mut self, len: Option<usize>) -> (r: Result<SeqSerializer>)
        ensures
            len is None ==> r == Err::<SeqSerializer, Error>(Error::UnexpectedValue("unknown len seq"))
                && *final(self) == *old(self),
            len matches Some(l) ==> r is Ok && final(self).wrote(old(self), header(PUSH, l as nat))
                && r->Ok_0.remaining() == Some(l as nat) && !r->Ok_0.keyed()
                && !r->Ok_0.attribute_next(),
    {
        match len {
            Some(l) => {
                self.write_push_len_marker(l)?;
                Ok(SeqSerializer::known_length(l).without_key())
            },
            None => Err(Error::unexpected_value("unknown len seq")),
        }
    }
}

} // verus!
