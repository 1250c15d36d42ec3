//! Wrapper types that own their text.
use vstd::prelude::*;

use crate::de::{tagged_spec, Deserializer, StringKind};
use crate::error::{Error, Result};
use crate::ser::{tagged_frame, Serializer};
use vstd::utf8::encode_utf8;

verus! {

/// Expects a simple error frame (`-`) when deserialized, and serializes as one.
pub struct SimpleError(pub String);

impl SimpleError {
    /// Wraps a copy of the text.
    pub fn new(s: &str) -> (r: Self)
        ensures
            r.0@ == s@,
    {
        SimpleError(s.to_owned())
    }

    pub fn deserialize<'de>(d: &mut Deserializer<'de>) -> (r: Result<SimpleError>)
        requires
            old(d).wf(),
        ensures
            final(d).moved_on(old(d)),
            match tagged_spec(old(d).rest(), old(d).skips_attributes(), StringKind::SimpleError) {
                Ok((v, n)) => r is Ok && r->Ok_0.0@ == v && final(d).advanced(old(d), n),
                Err(e) => r == Err::<SimpleError, Error>(e),
            },
    {
        let s = d.deserialize_tagged(StringKind::SimpleError)?;
        Ok(SimpleError(s.to_owned()))
    }

    pub fn serialize(&self, se: &mut Serializer) -> (r: Result<()>)
        ensures
            r is Ok,
            final(se).wrote(old(se), tagged_frame(StringKind::SimpleError, encode_utf8(self.0@))),
    {
        se.serialize_tagged_str(StringKind::SimpleError, self.0.as_str())
    }
}

impl From<String> for SimpleError {
    fn from(s: String) -> Self {
        SimpleError(s)
    }
}

impl vstd::std_specs::convert::FromSpecImpl<String> for SimpleError {
    open spec fn obeys_from_spec() -> bool {
        true
    }

    open spec fn from_spec(s: String) -> Self {
        SimpleError(s)
    }
}

/// Expects a blob error frame (`!`) when deserialized, and serializes as one.
pub struct BlobError(pub String);

impl BlobError {
    /// Wraps a copy of the text.
    pub fn new(s: &str) -> (r: Self)
        ensures
            r.0@ == s@,
    {
        BlobError(s.to_owned())
    }

    pub fn deserialize<'de>(d: &mut Deserializer<'de>) -> (r: Result<BlobError>)
        requires
            old(d).wf(),
        ensures
            final(d).moved_on(old(d)),
            match tagged_spec(old(d).rest(), old(d).skips_attributes(), StringKind::BlobError) {
                Ok((v, n)) => r is Ok && r->Ok_0.0@ == v && final(d).advanced(old(d), n),
                Err(e) => r == Err::<BlobError, Error>(e),
            },
    {
        let s = d.deserialize_tagged(StringKind::BlobError)?;
        Ok(BlobError(s.to_owned()))
    }

    pub fn serialize(&self, se: &mut Serializer) -> (r: Result<()>)
        ensures
            r is Ok,
            final(se).wrote(old(se), tagged_frame(StringKind::BlobError, encode_utf8(self.0@))),
    {
        se.serialize_tagged_str(StringKind::BlobError, self.0.as_str())
    }
}

impl From<String> for BlobError {
    fn from(s: String) -> Self {
        BlobError(s)
    }
}

impl vstd::std_specs::convert::FromSpecImpl<String> for BlobError {
    open spec fn obeys_from_spec() -> bool {
        true
    }

    open spec fn from_spec(s: String) -> Self {
        BlobError(s)
    }
}

/// Expects a simple string frame (`+`) when deserialized, and serializes as one.
pub struct SimpleString(pub String);

impl SimpleString {
    /// Wraps a copy of the text.
    pub fn new(s: &str) -> (r: Self)
        ensures
            r.0@ == s@,
    {
        SimpleString(s.to_owned())
    }

    pub fn deserialize<'de>(d: &mut Deserializer<'de>) -> (r: Result<SimpleString>)
        requires
            old(d).wf(),
        ensures
            final(d).moved_on(old(d)),
            match tagged_spec(old(d).rest(), old(d).skips_attributes(), StringKind::SimpleString) {
                Ok((v, n)) => r is Ok && r->Ok_0.0@ == v && final(d).advanced(old(d), n),
                Err(e) => r == Err::<SimpleString, Error>(e),
            },
    {
        let s = d.deserialize_tagged(StringKind::SimpleString)?;
        Ok(SimpleString(s.to_owned()))
    }

    pub fn serialize(&self, se: &mut Serializer) -> (r: Result<()>)
        ensures
            r is Ok,
            final(se).wrote(old(se), tagged_frame(StringKind::SimpleString, encode_utf8(self.0@))),
    {
        se.serialize_tagged_str(StringKind::SimpleString, self.0.as_str())
    }
}

impl From<String> for SimpleString {
    fn from(s: String) -> Self {
        SimpleString(s)
    }
}

impl vstd::std_specs::convert::FromSpecImpl<String> for SimpleString {
    open spec fn obeys_from_spec() -> bool {
        true
    }

    open spec fn from_spec(s: String) -> Self {
        SimpleString(s)
    }
}

/// Expects a blob string frame (`$`) when deserialized, and serializes as one.
pub struct BlobString(pub String);

impl BlobString {
    /// Wraps a copy of the text.
    pub fn new(s: &str) -> (r: Self)
        ensures
            r.0@ == s@,
    {
        BlobString(s.to_owned())
    }

    pub fn deserialize<'de>(d: &mut Deserializer<'de>) -> (r: Result<BlobString>)
        requires
            old(d).wf(),
        ensures
            final(d).moved_on(old(d)),
            match tagged_spec(old(d).rest(), old(d).skips_attributes(), StringKind::BlobString) {
                Ok((v, n)) => r is Ok && r->Ok_0.0@ == v && final(d).advanced(old(d), n),
                Err(e) => r == Err::<BlobString, Error>(e),
            },
    {
        let s = d.deserialize_tagged(StringKind::BlobString)?;
        Ok(BlobString(s.to_owned()))
    }

    pub fn serialize(&self, se: &mut Serializer) -> (r: Result<()>)
        ensures
            r is Ok,
            final(se).wrote(old(se), tagged_frame(StringKind::BlobString, encode_utf8(self.0@))),
    {
        se.serialize_tagged_str(StringKind::BlobString, self.0.as_str())
    }
}

impl From<String> for BlobString {
    fn from(s: String) -> Self {
        BlobString(s)
    }
}

impl vstd::std_specs::convert::FromSpecImpl<String> for BlobString {
    open spec fn obeys_from_spec() -> bool {
        true
    }

    open spec fn from_spec(s: String) -> Self {
        BlobString(s)
    }
}

} // verus!
