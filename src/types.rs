//! The tag sentinels that mark wrapper types, and the wrapper types that
//! pin a value to one RESP3 frame kind.
use vstd::prelude::*;

use crate::de::{attribute_skip_spec, skip_any_spec, tagged_spec, Deserializer, StringKind};
use crate::error::{Error, Result};
use crate::ser::{line, Serializer};
use crate::wire::SIMPLE_STRING;
use vstd::utf8::encode_utf8;

pub mod borrowed;
pub mod owned;

verus! {

broadcast use vstd::utf8::encode_utf8_decode_utf8;

pub const SIMPLE_ERROR_TOKEN: &'static str = "$SimpleError";

pub const BLOB_ERROR_TOKEN: &'static str = "$BulkError";

pub const SIMPLE_STRING_TOKEN: &'static str = "$SimpleString";

pub const BLOB_STRING_TOKEN: &'static str = "$BulkString";

pub const ATTRIBUTE_SKIP_TOKEN: &'static str = "$AttributeSkip";

pub const WITH_ATTRIBUTE_TOKEN: &'static str = "$WithAttribute";

pub const PUSH_TOKEN: &'static str = "$Push";

/// What a newtype wrapper's name selects.
#[derive(PartialEq, Eq, Structural, Clone, Copy, Debug)]
pub enum Tag {
    Str(StringKind),
    AttributeSkip,
    WithAttribute,
    Push,
    Other,
}

/// The tag of a wrapper name: the sentinel it equals, if any.
pub open spec fn tag_spec(name: Seq<char>) -> Tag {
    if name == SIMPLE_ERROR_TOKEN@ {
        Tag::Str(StringKind::SimpleError)
    } else if name == BLOB_ERROR_TOKEN@ {
        Tag::Str(StringKind::BlobError)
    } else if name == SIMPLE_STRING_TOKEN@ {
        Tag::Str(StringKind::SimpleString)
    } else if name == BLOB_STRING_TOKEN@ {
        Tag::Str(StringKind::BlobString)
    } else if name == ATTRIBUTE_SKIP_TOKEN@ {
        Tag::AttributeSkip
    } else if name == WITH_ATTRIBUTE_TOKEN@ {
        Tag::WithAttribute
    } else if name == PUSH_TOKEN@ {
        Tag::Push
    } else {
        Tag::Other
    }
}

/// Whether two strings are equal, compared byte by byte.
pub fn str_eq(a: &str, b: &str) -> (r: bool)
    ensures
        r == (a@ == b@),
{
    let x = a.as_bytes();
    let y = b.as_bytes();
    if x.len() != y.len() {
        assert(encode_utf8(a@) != encode_utf8(b@));
        return false;
    }
    let mut i: usize = 0;
    while i < x.len()
        invariant
            x@.len() == y@.len(),
            x@ == encode_utf8(a@),
            y@ == encode_utf8(b@),
            0 <= i <= x@.len(),
            forall|k: int| 0 <= k < i ==> x@[k] == y@[k],
        decreases x@.len() - i,
    {
        if x[i] != y[i] {
            assert(x@[i as int] != y@[i as int]);
            return false;
        }
        i = i + 1;
    }
    assert(x@ =~= y@);
    assert(decode_utf8_of(x@) == a@);
    true
}

spec fn decode_utf8_of(b: Seq<u8>) -> Seq<char> {
    vstd::utf8::decode_utf8(b)
}

/// The tag that a wrapper name selects.
pub fn tag_of(name: &str) -> (r: Tag)
    ensures
        r == tag_spec(name@),
{
    if str_eq(name, SIMPLE_ERROR_TOKEN) {
        Tag::Str(StringKind::SimpleError)
    } else if str_eq(name, BLOB_ERROR_TOKEN) {
        Tag::Str(StringKind::BlobError)
    } else if str_eq(name, SIMPLE_STRING_TOKEN) {
        Tag::Str(StringKind::SimpleString)
    } else if str_eq(name, BLOB_STRING_TOKEN) {
        Tag::Str(StringKind::BlobString)
    } else if str_eq(name, ATTRIBUTE_SKIP_TOKEN) {
        Tag::AttributeSkip
    } else if str_eq(name, WITH_ATTRIBUTE_TOKEN) {
        Tag::WithAttribute
    } else if str_eq(name, PUSH_TOKEN) {
        Tag::Push
    } else {
        Tag::Other
    }
}

/// Expects one value of any shape, with the attribute before it, and
/// ignores it.
pub struct AnySkip;

impl AnySkip {
    /// Attributes are skipped while this reads, whatever the setting, which
    /// is restored afterwards.
    pub fn deserialize(d: &mut Deserializer) -> (r: Result<AnySkip>)
        requires
            old(d).wf(),
        ensures
            final(d).moved_on(old(d)),
            match skip_any_spec(old(d).rest()) {
                Ok(n) => r is Ok && final(d).advanced(old(d), n),
                Err(e) => r == Err::<AnySkip, Error>(e),
            },
    {
        let saved = d.set_skip_attribute(true);
        let r = d.skip_any();
        d.set_skip_attribute(saved);
        r?;
        Ok(AnySkip)
    }
}

/// Expects an attribute frame, and ignores it.
pub struct AttributeSkip;

impl AttributeSkip {
    /// Attributes are skipped while this reads, whatever the setting, which
    /// is restored afterwards.
    pub fn deserialize(d: &mut Deserializer) -> (r: Result<AttributeSkip>)
        requires
            old(d).wf(),
        ensures
            final(d).moved_on(old(d)),
            match attribute_skip_spec(old(d).rest()) {
                Ok(n) => r is Ok && final(d).advanced(old(d), n),
                Err(e) => r == Err::<AttributeSkip, Error>(e),
            },
    {
        let saved = d.set_skip_attribute(true);
        let r = d.skip_attribute();
        d.set_skip_attribute(saved);
        r?;
        Ok(AttributeSkip)
    }
}

/// A RESP3 value `V` with an attribute `A`.
pub struct WithAttribute<A, V> {
    attr: A,
    value: V,
}

impl<A, V> WithAttribute<A, V> {
    pub closed spec fn attribute(&self) -> A {
        self.attr
    }

    pub closed spec fn value(&self) -> V {
        self.value
    }

    /// Attaches an attribute to a value.
    pub fn new(attr: A, value: V) -> (r: Self)
        ensures
            r.attribute() == attr,
            r.value() == value,
    {
        WithAttribute { attr, value }
    }

    /// Unwraps the attribute and the value.
    pub fn into_inner(self) -> (r: (A, V))
        ensures
            r == (self.attribute(), self.value()),
    {
        (self.attr, self.value)
    }

    /// Unwraps the attribute, dropping the value.
    pub fn into_attribute(self) -> (r: A)
        ensures
            r == self.attribute(),
    {
        self.attr
    }

    /// Unwraps the value, dropping the attribute.
    pub fn into_value(self) -> (r: V)
        ensures
            r == self.value(),
    {
        self.value
    }
}

/// Wraps a push value.
pub struct Push<P>(pub P);

impl<P> Push<P> {
    pub fn into_inner(self) -> (r: P)
        ensures
            r == self.0,
    {
        self.0
    }
}

/// The text of an OK reply, in any case.
pub open spec fn is_ok_text(v: Seq<char>) -> bool {
    v == "OK"@ || v == "Ok"@ || v == "oK"@ || v == "ok"@
}

/// Whether a reply's text is `OK`, ignoring case.
pub fn is_ok_reply(s: &str) -> (r: bool)
    ensures
        r == is_ok_text(s@),
{
    str_eq(s, "OK") || str_eq(s, "Ok") || str_eq(s, "oK") || str_eq(s, "ok")
}

/// The OK reply to a command: a simple string `OK`.
pub struct OkResponse;

impl OkResponse {
    /// Succeeds on a simple string equal to `OK`, ignoring case, after the
    /// attributes before it.
    pub fn deserialize(d: &mut Deserializer) -> (r: Result<OkResponse>)
        requires
            old(d).wf(),
        ensures
            final(d).moved_on(old(d)),
            match tagged_spec(old(d).rest(), old(d).skips_attributes(), StringKind::SimpleString) {
                Ok((v, n)) => if is_ok_text(v) {
                    r is Ok && final(d).advanced(old(d), n)
                } else {
                    r is Err && r->Err_0 is Custom && r->Err_0->Custom_0@ == "expect +OK"@
                },
                Err(e) => r == Err::<OkResponse, Error>(e),
            },
    {
        let s = d.deserialize_tagged(StringKind::SimpleString)?;
        if is_ok_reply(s) {
            Ok(OkResponse)
        } else {
            Err(Error::custom("expect +OK".to_owned()))
        }
    }

    /// Writes `+OK` CR LF.
    pub fn serialize(&self, se: &mut Serializer) -> (r: Result<()>)
        ensures
            r is Ok,
            final(se).wrote(old(se), line(SIMPLE_STRING, encode_utf8("OK"@))),
    {
        se.write_simple_string("OK")
    }
}

} // verus!
