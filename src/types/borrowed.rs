//! Wrapper types that borrow their text from the input.
use vstd::prelude::*;

use crate::de::{tagged_spec, Deserializer, StringKind};
use crate::error::{Error, Result};
use crate::ser::{tagged_frame, Serializer};
use vstd::utf8::encode_utf8;

verus! {

/// Expects a simple error frame (`-`) when deserialized, borrowing its text, and serializes
/// as one.
pub struct SimpleError<'a>(pub &'a str);

impl<'a> SimpleError<'a> {
    pub fn deserialize(d: &mut Deserializer<'a>) -> (r: Result<SimpleError<'a>>)
        requires
            old(d).wf(),
        ensures
            final(d).moved_on(old(d)),
            match tagged_spec(old(d).rest(), old(d).skips_attributes(), StringKind::SimpleError) {
                Ok((v, n)) => r is Ok && r->Ok_0.0@ == v && final(d).advanced(old(d), n),
                Err(e) => r == Err::<SimpleError<'a>, Error>(e),
            },
    {
        let s = d.deserialize_tagged(StringKind::SimpleError)?;
        Ok(SimpleError(s))
    }

    pub fn serialize(&self, se: &mut Serializer) -> (r: Result<()>)
        ensures
            r is Ok,
            final(se).wrote(old(se), tagged_frame(StringKind::SimpleError, encode_utf8(self.0@))),
    {
        se.serialize_tagged_str(StringKind::SimpleError, self.0)
    }
}

impl<'a> From<&'a str> for SimpleError<'a> {
    fn from(s: &'a str) -> Self {
        SimpleError(s)
    }
}

impl<'a> vstd::std_specs::convert::FromSpecImpl<&'a str> for SimpleError<'a> {
    open spec fn obeys_from_spec() -> bool {
        true
    }

    open spec fn from_spec(s: &'a str) -> Self {
        SimpleError(s)
    }
}

/// Expects a blob error frame (`!`) when deserialized, borrowing its text, and serializes
/// as one.
pub struct BlobError<'a>(pub &'a str);

impl<'a> BlobError<'a> {
    pub fn deserialize(d: &mut Deserializer<'a>) -> (r: Result<BlobError<'a>>)
        requires
            old(d).wf(),
        ensures
            final(d).moved_on(old(d)),
            match tagged_spec(old(d).rest(), old(d).skips_attributes(), StringKind::BlobError) {
                Ok((v, n)) => r is Ok && r->Ok_0.0@ == v && final(d).advanced(old(d), n),
                Err(e) => r == Err::<BlobError<'a>, Error>(e),
            },
    {
        let s = d.deserialize_tagged(StringKind::BlobError)?;
        Ok(BlobError(s))
    }

    pub fn serialize(&self, se: &mut Serializer) -> (r: Result<()>)
        ensures
            r is Ok,
            final(se).wrote(old(se), tagged_frame(StringKind::BlobError, encode_utf8(self.0@))),
    {
        se.serialize_tagged_str(StringKind::BlobError, self.0)
    }
}

impl<'a> From<&'a str> for BlobError<'a> {
    fn from(s: &'a str) -> Self {
        BlobError(s)
    }
}

impl<'a> vstd::std_specs::convert::FromSpecImpl<&'a str> for BlobError<'a> {
    open spec fn obeys_from_spec() -> bool {
        true
    }

    open spec fn from_spec(s: &'a str) -> Self {
        BlobError(s)
    }
}

/// Expects a simple string frame (`+`) when deserialized, borrowing its text, and serializes
/// as one.
pub struct SimpleString<'a>(pub &'a str);

impl<'a> SimpleString<'a> {
    pub fn deserialize(d: &mut Deserializer<'a>) -> (r: Result<SimpleString<'a>>)
        requires
            old(d).wf(),
        ensures
            final(d).moved_on(old(d)),
            match tagged_spec(old(d).rest(), old(d).skips_attributes(), StringKind::SimpleString) {
                Ok((v, n)) => r is Ok && r->Ok_0.0@ == v && final(d).advanced(old(d), n),
                Err(e) => r == Err::<SimpleString<'a>, Error>(e),
            },
    {
        let s = d.deserialize_tagged(StringKind::SimpleString)?;
        Ok(SimpleString(s))
    }

    pub fn serialize(&self, se: &mut Serializer) -> (r: Result<()>)
        ensures
            r is Ok,
            final(se).wrote(old(se), tagged_frame(StringKind::SimpleString, encode_utf8(self.0@))),
    {
        se.serialize_tagged_str(StringKind::SimpleString, self.0)
    }
}

impl<'a> From<&'a str> for SimpleString<'a> {
    fn from(s: &'a str) -> Self {
        SimpleString(s)
    }
}

impl<'a> vstd::std_specs::convert::FromSpecImpl<&'a str> for SimpleString<'a> {
    open spec fn obeys_from_spec() -> bool {
        true
    }

    open spec fn from_spec(s: &'a str) -> Self {
        SimpleString(s)
    }
}

/// Expects a blob string frame (`$`) when deserialized, borrowing its text, and serializes
/// as one.
pub struct BlobString<'a>(pub &'a str);

impl<'a> BlobString<'a> {
    pub fn deserialize(d: &mut Deserializer<'a>) -> (r: Result<BlobString<'a>>)
        requires
            old(d).wf(),
        ensures
            final(d).moved_on(old(d)),
            match tagged_spec(old(d).rest(), old(d).skips_attributes(), StringKind::BlobString) {
                Ok((v, n)) => r is Ok && r->Ok_0.0@ == v && final(d).advanced(old(d), n),
                Err(e) => r == Err::<BlobString<'a>, Error>(e),
            },
    {
        let s = d.deserialize_tagged(StringKind::BlobString)?;
        Ok(BlobString(s))
    }

    pub fn serialize(&self, se: &mut Serializer) -> (r: Result<()>)
        ensures
            r is Ok,
            final(se).wrote(old(se), tagged_frame(StringKind::BlobString, encode_utf8(self.0@))),
    {
        se.serialize_tagged_str(StringKind::BlobString, self.0)
    }
}

impl<'a> From<&'a str> for BlobString<'a> {
    fn from(s: &'a str) -> Self {
        BlobString(s)
    }
}

impl<'a> vstd::std_specs::convert::FromSpecImpl<&'a str> for BlobString<'a> {
    open spec fn obeys_from_spec() -> bool {
        true
    }

    open spec fn from_spec(s: &'a str) -> Self {
        BlobString(s)
    }
}

} // verus!
